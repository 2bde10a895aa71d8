//! AArch64 translation tables: a 4-level tree of 512-entry tables for a
//! 48-bit virtual address space with a 4 KiB granule.
//!
//! The root table of an address space is a `PageTable` value; the tables
//! below it live in `TableMemory`, the physical frames reserved for
//! translation tables, where frame `k` sits at physical address
//! `base + k * 4096`.
use vstd::prelude::*;

verus! {

/// Size of a page and of a translation table, in bytes.
pub const PAGE_SIZE: u64 = 4096;

/// Number of entries in a translation table.
pub const TABLE_ENTRIES: usize = 512;

/// Virtual base of the direct map of physical memory.
pub const PHYSMAP_BASE: u64 = 0xffff_8000_0000_0000;

/// Bits 47:12 of a descriptor (and the architecture's reserved 51:48) hold
/// the output address.
pub const ADDR_MASK: u64 = 0x000f_ffff_ffff_f000;

/// Descriptor bit 0: the descriptor is valid.
pub const FLAG_VALID: u64 = 1;

/// Descriptor bit 1: a table (levels 0 to 2) or a page (level 3); clear for a
/// block.
pub const FLAG_TABLE: u64 = 2;

/// The memory attribute index field, bits 4:2.
pub const FLAG_ATTR_INDEX: u64 = 0x1c;

/// AP[1]: accessible from EL0.
pub const FLAG_AP_1: u64 = 0x40;

/// AP[2]: read-only.
pub const FLAG_AP_2: u64 = 0x80;

/// The access flag.
pub const FLAG_ACCESS: u64 = 0x400;

/// Privileged execute-never.
pub const FLAG_PXN: u64 = 0x0020_0000_0000_0000;

/// Execute-never.
pub const FLAG_XN: u64 = 0x0040_0000_0000_0000;

/// Every descriptor bit that `EntryFlags` knows.
pub const FLAGS_KNOWN: u64 = 0x0060_0000_0000_04df;

/// Permission bit: the mapping is writable.
pub const PERM_WRITE: u64 = 1;

/// Permission bit: the mapping is executable.
pub const PERM_EXECUTE: u64 = 2;

/// Permission bit: the mapping is for the kernel only.
pub const PERM_KERNEL: u64 = 4;

/// Permission bits: readable by user code.
pub const USER_READ_ONLY: u64 = 0;

/// Permission bits: readable and writable by user code.
pub const USER_READ_WRITE: u64 = PERM_WRITE;

/// Permission bits: readable and executable by user code.
pub const USER_READ_EXECUTE: u64 = PERM_EXECUTE;

/// Permission bits: readable, writable and executable by user code.
pub const USER_RWX: u64 = PERM_WRITE | PERM_EXECUTE;

/// Permission bits: readable by the kernel only.
pub const KERNEL_READ_ONLY: u64 = PERM_KERNEL;

/// Permission bits: readable and writable by the kernel only.
pub const KERNEL_READ_WRITE: u64 = PERM_KERNEL | PERM_WRITE;

/// Permission bits: readable and executable by the kernel only.
pub const KERNEL_READ_EXECUTE: u64 = PERM_KERNEL | PERM_EXECUTE;

/// Permission bits: readable, writable and executable by the kernel only.
pub const KERNEL_RWX: u64 = PERM_KERNEL | PERM_WRITE | PERM_EXECUTE;

/// A physical address.
#[derive(Clone, Copy, Debug, PartialEq, Eq, Structural)]
pub struct PhysAddr(pub u64);

impl PhysAddr {
    /// Whether the low `log2(n)` bits are zero, for a power of two `n`.
    pub fn is_aligned(&self, n: u64) -> (r: bool)
        requires
            n > 0,
        ensures
            r == (self.0 & (n - 1) as u64 == 0),
    {
        self.0 & (n - 1) == 0
    }
}

/// Where the direct map shows the physical address `phys`.
pub open spec fn spec_phys_to_virt(phys: PhysAddr) -> int {
    phys.0 + PHYSMAP_BASE
}

/// The virtual address at which the kernel reaches `phys` through the direct
/// map.
pub fn phys_to_virt(phys: PhysAddr) -> (r: u64)
    requires
        phys.0 + PHYSMAP_BASE <= u64::MAX,
    ensures
        r == spec_phys_to_virt(phys),
{
    phys.0 + PHYSMAP_BASE
}

/// Descriptor flags: the bits of a descriptor outside its address.
#[derive(Clone, Copy, Debug, PartialEq, Eq, Structural)]
pub struct EntryFlags {
    pub bits: u64,
}

impl EntryFlags {
    /// The flags of `bits` that `EntryFlags` knows; the others are dropped.
    pub fn from_bits_truncate(bits: u64) -> (r: EntryFlags)
        ensures
            r.bits == bits & FLAGS_KNOWN,
    {
        EntryFlags { bits: bits & FLAGS_KNOWN }
    }
}

/// Access rights asked for a mapping: a set of `PERM_*` bits. With no bit set
/// the mapping is read-only, user-accessible and not executable.
#[derive(Clone, Copy, Debug, PartialEq, Eq, Structural)]
pub struct PagePermission {
    pub bits: u64,
}

/// The hardware bits for the permission bits `perm`: AP[1] unless kernel-only,
/// AP[2] unless writable, XN unless executable.
pub open spec fn perm_flags(perm: u64) -> u64 {
    (if perm & PERM_KERNEL == 0 { FLAG_AP_1 } else { 0 }) | (if perm & PERM_WRITE == 0 {
        FLAG_AP_2
    } else {
        0
    }) | (if perm & PERM_EXECUTE == 0 { FLAG_XN } else { 0 })
}

/// Translates a permission into descriptor flags.
pub fn map_perms(perm: PagePermission) -> (r: EntryFlags)
    ensures
        r.bits == perm_flags(perm.bits),
{
    let user: u64 = if perm.bits & PERM_KERNEL == 0 { FLAG_AP_1 } else { 0 };
    let read_only: u64 = if perm.bits & PERM_WRITE == 0 { FLAG_AP_2 } else { 0 };
    let no_exec: u64 = if perm.bits & PERM_EXECUTE == 0 { FLAG_XN } else { 0 };
    let flags = user | read_only | no_exec;
    EntryFlags { bits: flags }
}

/// Whether the descriptor word `e`, in a table of `level`, points to a
/// table of the next level.
pub open spec fn is_pointer(e: u64, level: nat) -> bool {
    level < 3 && entry_valid(e) && entry_table_bit(e)
}

/// Whether `v` and `w` select the same entry at every level up to `level`,
/// so that their walks coincide down to that level.
pub open spec fn same_indices(v: u64, w: u64, level: nat) -> bool {
    forall|l: nat| l <= level ==> #[trigger] level_index(v, l) == level_index(w, l)
}

/// Whether the descriptor word `e` is valid.
pub open spec fn entry_valid(e: u64) -> bool {
    e & FLAG_VALID == FLAG_VALID
}

/// Whether bit 1 of `e` is set: a table above level 3, a page at level 3.
pub open spec fn entry_table_bit(e: u64) -> bool {
    e & FLAG_TABLE == FLAG_TABLE
}

/// The output address held by the descriptor word `e`.
pub open spec fn entry_addr(e: u64) -> u64 {
    e & ADDR_MASK
}

/// The descriptor word that points to a table at `a`.
pub open spec fn table_descriptor(a: u64) -> u64 {
    (a & ADDR_MASK) | FLAG_VALID | FLAG_TABLE
}

/// The descriptor word that maps `phys` as a block (`kind == 0`) or a page
/// (`kind == FLAG_TABLE`) with permission bits `perm`.
pub open spec fn leaf_descriptor(phys: u64, kind: u64, perm: u64) -> u64 {
    (phys & ADDR_MASK) | (FLAG_VALID | kind | FLAG_ACCESS | perm_flags(perm))
}

/// One translation table entry: a 64-bit descriptor.
#[derive(Clone, Copy, Debug, PartialEq, Eq, Structural)]
pub struct PageTableEntry {
    pub entry: u64,
}

impl PageTableEntry {
    /// The empty (invalid, zero) entry.
    pub fn new() -> (r: PageTableEntry)
        ensures
            r.entry == 0,
    {
        PageTableEntry { entry: 0 }
    }

    /// The output address, bits 47:12.
    pub fn addr(&self) -> (r: PhysAddr)
        ensures
            r.0 == entry_addr(self.entry),
    {
        PhysAddr(self.entry & ADDR_MASK)
    }

    /// The known flag bits outside the address.
    pub fn flags(&self) -> (r: EntryFlags)
        ensures
            r.bits == self.entry & !ADDR_MASK & FLAGS_KNOWN,
    {
        EntryFlags::from_bits_truncate(self.entry & !ADDR_MASK)
    }

    /// Replaces the flags, keeping the address.
    pub fn set_flags(&mut self, flags: EntryFlags)
        ensures
            final(self).entry == (old(self).entry & ADDR_MASK) | flags.bits,
    {
        self.entry = self.addr().0 | flags.bits;
    }

    /// Replaces the address, keeping the known flags.
    pub fn set_addr(&mut self, addr: PhysAddr)
        requires
            addr.0 % PAGE_SIZE == 0,
        ensures
            final(self).entry == (addr.0 & ADDR_MASK) | (old(self).entry & !ADDR_MASK & FLAGS_KNOWN),
    {
        self.entry = (addr.0 & ADDR_MASK) | self.flags().bits;
    }
}

/// A fresh entry pointing to the table at `a`.
fn make_table_entry(a: PhysAddr) -> (r: PageTableEntry)
    requires
        a.0 % PAGE_SIZE == 0,
    ensures
        r.entry == table_descriptor(a.0),
{
    let mut entry = PageTableEntry::new();
    entry.set_flags(EntryFlags { bits: FLAG_VALID | FLAG_TABLE });
    entry.set_addr(a);
    proof {
        let x = a.0;
        assert(((x & ADDR_MASK) | ((((0u64 & ADDR_MASK) | (FLAG_VALID | FLAG_TABLE)) & !ADDR_MASK)
            & FLAGS_KNOWN)) == (x & ADDR_MASK) | FLAG_VALID | FLAG_TABLE) by (bit_vector);
    }
    entry
}

/// A fresh block (`kind == 0`) or page (`kind == FLAG_TABLE`) entry mapping
/// `phys` with `perm`.
fn make_leaf_entry(phys: PhysAddr, kind: u64, perm: PagePermission) -> (r: PageTableEntry)
    requires
        phys.0 % PAGE_SIZE == 0,
        kind == 0 || kind == FLAG_TABLE,
    ensures
        r.entry == leaf_descriptor(phys.0, kind, perm.bits),
{
    let mut entry = PageTableEntry::new();
    entry.set_flags(
        EntryFlags { bits: FLAG_VALID | kind | FLAG_ACCESS | map_perms(perm).bits },
    );
    entry.set_addr(phys);
    proof {
        let x = phys.0;
        let p = perm_flags(perm.bits);
        lemma_perm_flags_bits(perm.bits);
        assert(p & !(FLAG_AP_1 | FLAG_AP_2 | FLAG_XN) == 0 && (kind == 0 || kind == 2) ==> ((x
            & ADDR_MASK) | ((((0u64 & ADDR_MASK) | (FLAG_VALID | kind | FLAG_ACCESS | p))
            & !ADDR_MASK) & FLAGS_KNOWN)) == (x & ADDR_MASK) | (FLAG_VALID | kind | FLAG_ACCESS
            | p)) by (bit_vector);
    }
    entry
}

/// Permission flags use AP[1], AP[2] and XN only.
proof fn lemma_perm_flags_bits(perm: u64)
    ensures
        perm_flags(perm) & !(FLAG_AP_1 | FLAG_AP_2 | FLAG_XN) == 0,
{
    let a: u64 = if perm & PERM_KERNEL == 0 { FLAG_AP_1 } else { 0 };
    let b: u64 = if perm & PERM_WRITE == 0 { FLAG_AP_2 } else { 0 };
    let c: u64 = if perm & PERM_EXECUTE == 0 { FLAG_XN } else { 0 };
    assert((a == FLAG_AP_1 || a == 0) && (b == FLAG_AP_2 || b == 0) && (c == FLAG_XN || c == 0)
        ==> (a | b | c) & !(FLAG_AP_1 | FLAG_AP_2 | FLAG_XN) == 0) by (bit_vector);
}

/// What a table descriptor for an aligned address below 2^48 holds.
proof fn lemma_table_descriptor(a: u64)
    requires
        a % PAGE_SIZE == 0,
        a < 0x1_0000_0000_0000,
    ensures
        entry_valid(table_descriptor(a)),
        entry_table_bit(table_descriptor(a)),
        entry_addr(table_descriptor(a)) == a,
        table_descriptor(a) != 0,
{
    assert(a % 4096 == 0 && a < 0x1_0000_0000_0000 ==> ((a & ADDR_MASK) | FLAG_VALID | FLAG_TABLE)
        & ADDR_MASK == a) by (bit_vector);
    assert(((a & ADDR_MASK) | FLAG_VALID | FLAG_TABLE) & FLAG_VALID == FLAG_VALID) by (bit_vector);
    assert(((a & ADDR_MASK) | FLAG_VALID | FLAG_TABLE) & FLAG_TABLE == FLAG_TABLE) by (bit_vector);
    lemma_valid_nonzero(table_descriptor(a));
}

/// What a leaf descriptor holds.
proof fn lemma_leaf_descriptor(phys: u64, kind: u64, perm: u64)
    requires
        kind == 0 || kind == FLAG_TABLE,
    ensures
        entry_valid(leaf_descriptor(phys, kind, perm)),
        entry_table_bit(leaf_descriptor(phys, kind, perm)) == (kind == FLAG_TABLE),
        entry_addr(leaf_descriptor(phys, kind, perm)) == phys & ADDR_MASK,
        leaf_descriptor(phys, kind, perm) != 0,
{
    let p = perm_flags(perm);
    lemma_perm_flags_bits(perm);
    assert(p & !(FLAG_AP_1 | FLAG_AP_2 | FLAG_XN) == 0 && (kind == 0 || kind == 2) ==> {
        let e = (phys & ADDR_MASK) | (FLAG_VALID | kind | FLAG_ACCESS | p);
        &&& e & FLAG_VALID == FLAG_VALID
        &&& (e & FLAG_TABLE == FLAG_TABLE) == (kind == 2)
        &&& e & ADDR_MASK == phys & ADDR_MASK
    }) by (bit_vector);
    lemma_valid_nonzero(leaf_descriptor(phys, kind, perm));
}

/// The zero descriptor is invalid.
proof fn lemma_zero_invalid()
    ensures
        !entry_valid(0),
{
    assert(0u64 & FLAG_VALID == 0) by (bit_vector);
}

/// A valid descriptor is not zero.
pub proof fn lemma_valid_nonzero(e: u64)
    ensures
        entry_valid(e) ==> e != 0,
{
    assert(e & FLAG_VALID == FLAG_VALID ==> e != 0) by (bit_vector);
}

/// Shift of the index field of `level` within a virtual address.
pub open spec fn level_shift(level: nat) -> u64 {
    if level == 0 {
        39
    } else if level == 1 {
        30
    } else if level == 2 {
        21
    } else {
        12
    }
}

/// The entry that `virt` selects in a table of `level`.
pub open spec fn level_index(virt: u64, level: nat) -> int {
    ((virt >> level_shift(level)) & 0x1ff) as int
}

/// The offset bits of a block or page that an entry of `level` maps.
pub open spec fn level_offset_mask(level: nat) -> u64 {
    if level == 0 {
        0x7f_ffff_ffff
    } else if level == 1 {
        0x3fff_ffff
    } else if level == 2 {
        0x1f_ffff
    } else {
        0xfff
    }
}

/// The size of a block or page that an entry of `level` maps.
pub open spec fn level_size(level: nat) -> int {
    level_offset_mask(level) + 1
}

/// The descriptor kind of a leaf at `level`: a page at level 3, else a block.
pub open spec fn leaf_kind(level: nat) -> u64 {
    if level == 3 {
        FLAG_TABLE
    } else {
        0
    }
}

proof fn lemma_level_index_bound(virt: u64, level: nat)
    ensures
        0 <= level_index(virt, level) < 512,
{
    let s = level_shift(level);
    assert((virt >> s) & 0x1ff < 512) by (bit_vector);
}

/// Two addresses in one block of `level` select the same entries at that
/// level and above.
proof fn lemma_same_block_same_index(v: u64, w: u64, level: nat, l: nat)
    requires
        1 <= level <= 3,
        l <= level,
        v & !level_offset_mask(level) == w & !level_offset_mask(level),
    ensures
        level_index(v, l) == level_index(w, l),
{
    let s = level_shift(l);
    if level == 3 {
        assert(s >= 12 && v & !0xfffu64 == w & !0xfffu64 ==> (v >> s) & 0x1ff == (w >> s) & 0x1ff)
            by (bit_vector);
    } else if level == 2 {
        assert(s >= 21 && v & !0x1f_ffffu64 == w & !0x1f_ffffu64 ==> (v >> s) & 0x1ff == (w >> s)
            & 0x1ff) by (bit_vector);
    } else {
        assert(s >= 30 && v & !0x3fff_ffffu64 == w & !0x3fff_ffffu64 ==> (v >> s) & 0x1ff == (w
            >> s) & 0x1ff) by (bit_vector);
    }
}

/// An address plus an offset below the block size stays in the block.
proof fn lemma_block_offset(virt: u64, d: u64, level: nat)
    requires
        1 <= level <= 3,
        virt & level_offset_mask(level) == 0,
        d <= level_offset_mask(level),
    ensures
        virt + d <= u64::MAX,
        ((virt + d) as u64) & !level_offset_mask(level) == virt & !level_offset_mask(level),
        ((virt + d) as u64) & level_offset_mask(level) == d,
{
    let m = level_offset_mask(level);
    assert(m == 0xfff || m == 0x1f_ffff || m == 0x3fff_ffff);
    assert((m == 0xfff || m == 0x1f_ffff || m == 0x3fff_ffff) && virt & m == 0 && d <= m ==> virt
        + d <= 0xffff_ffff_ffff_ffff) by (bit_vector);
    assert((m == 0xfff || m == 0x1f_ffff || m == 0x3fff_ffff) && virt & m == 0 && d <= m ==> {
        &&& ((virt + d) as u64) & !m == virt & !m
        &&& ((virt + d) as u64) & m == d
    }) by (bit_vector);
}

/// The address of an aligned physical address below 2^52 survives a
/// descriptor, and an offset below the block size can be added to it.
proof fn lemma_aligned_addr(phys: u64, d: u64, level: nat)
    requires
        1 <= level <= 3,
        phys & level_offset_mask(level) == 0,
        phys < 0x10_0000_0000_0000,
        d <= level_offset_mask(level),
    ensures
        phys & ADDR_MASK == phys,
        phys + d <= u64::MAX,
{
    let m = level_offset_mask(level);
    assert(m == 0xfff || m == 0x1f_ffff || m == 0x3fff_ffff);
    assert((m == 0xfff || m == 0x1f_ffff || m == 0x3fff_ffff) && phys & m == 0 && phys
        < 0x10_0000_0000_0000 ==> phys & ADDR_MASK == phys) by (bit_vector);
}

/// A block or page translation never overflows.
proof fn lemma_leaf_sum(v: u64, e: u64, level: nat)
    ensures
        (v & level_offset_mask(level)) + entry_addr(e) <= u64::MAX,
{
    let m = level_offset_mask(level);
    assert(m <= 0x7f_ffff_ffff);
    assert(m <= 0x7f_ffff_ffff ==> (v & m) + (e & ADDR_MASK) <= 0xffff_ffff_ffff_ffff)
        by (bit_vector);
}

/// The bits of `e` that `EntryFlags` keeps agree with `e` on bits 0 and 1.
proof fn lemma_flags_low_bits(e: u64)
    ensures
        (e & !ADDR_MASK & FLAGS_KNOWN) & FLAG_VALID == e & FLAG_VALID,
        (e & !ADDR_MASK & FLAGS_KNOWN) & FLAG_TABLE == e & FLAG_TABLE,
{
    assert((e & !ADDR_MASK & FLAGS_KNOWN) & FLAG_VALID == e & FLAG_VALID) by (bit_vector);
    assert((e & !ADDR_MASK & FLAGS_KNOWN) & FLAG_TABLE == e & FLAG_TABLE) by (bit_vector);
}

fn level_shift_of(level: usize) -> (r: u64)
    requires
        level <= 3,
    ensures
        r == level_shift(level as nat),
{
    ((3 - level) * 9 + 12) as u64
}

fn index_of(virt: u64, level: usize) -> (r: usize)
    requires
        level <= 3,
    ensures
        r == level_index(virt, level as nat),
        r < TABLE_ENTRIES,
{
    let off = level_shift_of(level);
    proof {
        lemma_level_index_bound(virt, level as nat);
    }
    ((virt >> off) & 0x1ff) as usize
}

fn offset_mask_of(level: usize) -> (r: u64)
    requires
        level <= 3,
    ensures
        r == level_offset_mask(level as nat),
{
    let off = level_shift_of(level);
    proof {
        assert((1u64 << 39u64) - 1 == 0x7f_ffff_ffff) by (bit_vector);
        assert((1u64 << 30u64) - 1 == 0x3fff_ffff) by (bit_vector);
        assert((1u64 << 21u64) - 1 == 0x1f_ffff) by (bit_vector);
        assert((1u64 << 12u64) - 1 == 0xfff) by (bit_vector);
        assert(1u64 << off >= 1) by (bit_vector)
            requires
                off <= 39,
        ;
    }
    (1u64 << off) - 1
}

/// A translation table: 512 entries.
pub struct PageTable {
    entries: Vec<PageTableEntry>,
}

impl View for PageTable {
    type V = Seq<PageTableEntry>;

    closed spec fn view(&self) -> Seq<PageTableEntry> {
        self.entries@
    }
}

/// The physical frames that hold translation tables below the roots: frame
/// `k` is at `base + k * 4096`. Frames are handed out in order and never
/// returned.
pub struct TableMemory {
    base: u64,
    capacity: usize,
    tables: Vec<PageTable>,
    levels: Ghost<Seq<nat>>,
    owners: Ghost<Seq<(int, int)>>,
}

impl TableMemory {
    /// Physical address of the first frame.
    pub closed spec fn base(&self) -> u64 {
        self.base
    }

    /// How many frames the region has in all.
    pub closed spec fn capacity(&self) -> nat {
        self.capacity as nat
    }

    /// How many frames hold a table.
    pub closed spec fn frames(&self) -> nat {
        self.tables@.len()
    }

    /// How many frames are still free.
    pub closed spec fn free_frames(&self) -> int {
        self.capacity - self.tables@.len()
    }

    /// The entries of the table in frame `k`.
    pub closed spec fn table(&self, k: int) -> Seq<PageTableEntry> {
        self.tables@[k]@
    }

    /// The level (1 to 3) at which the table in frame `k` serves.
    pub closed spec fn level_of(&self, k: int) -> nat {
        self.levels@[k]
    }

    /// The frame that holds physical address `a`.
    pub closed spec fn frame_of(&self, a: u64) -> int {
        (a - self.base) / 4096
    }

    /// The entry that points to the table in frame `k`: a (frame, index)
    /// pair, or (-1, index) for an entry of a root table.
    pub closed spec fn owner_of(&self, k: int) -> (int, int) {
        self.owners@[k]
    }

    /// Whether `a` is the start of a frame that holds a table.
    pub closed spec fn holds_table(&self, a: u64) -> bool {
        &&& self.base <= a
        &&& (a - self.base) % 4096 == 0
        &&& self.frame_of(a) < self.frames()
    }

    /// Whether `e` is a legal descriptor in a table of `level`: zero, a table
    /// descriptor above level 3 that points to a table of the next level, a
    /// block descriptor at level 1 or 2, or a page descriptor at level 3.
    pub closed spec fn entry_ok(&self, e: u64, level: nat) -> bool {
        ||| e == 0
        ||| entry_valid(e) && level < 3 && entry_table_bit(e) && self.holds_table(entry_addr(e))
            && self.level_of(self.frame_of(entry_addr(e))) == level + 1
        ||| entry_valid(e) && (level == 1 || level == 2) && !entry_table_bit(e)
        ||| entry_valid(e) && level == 3 && entry_table_bit(e)
    }

    /// The invariant of the region: every table has 512 legal entries.
    pub closed spec fn wf(&self) -> bool {
        &&& self.base % 4096 == 0
        &&& self.base + self.capacity * 4096 <= 0x1_0000_0000_0000
        &&& self.tables@.len() <= self.capacity
        &&& self.levels@.len() == self.tables@.len()
        &&& self.owners@.len() == self.tables@.len()
        &&& forall|k: int, i: int|
            0 <= k < self.frames() && 0 <= i < 512 && is_pointer(
                #[trigger] self.table(k)[i].entry,
                self.level_of(k),
            ) ==> self.owner_of(self.frame_of(entry_addr(self.table(k)[i].entry))) == (k, i)
        &&& forall|k: int|
            0 <= k < self.frames() ==> (#[trigger] self.table(k)).len() == 512 && 1
                <= self.level_of(k) <= 3
        &&& forall|k: int, i: int|
            0 <= k < self.frames() && 0 <= i < 512 ==> self.entry_ok(
                (#[trigger] self.table(k)[i]).entry,
                self.level_of(k),
            )
    }

    /// Whether `self` is `prev` with frames added and the table in frame `c`
    /// (if any) changed.
    closed spec fn grows_from(&self, prev: &TableMemory, c: int) -> bool {
        &&& self.base == prev.base
        &&& self.capacity == prev.capacity
        &&& prev.frames() <= self.frames()
        &&& forall|k: int| 0 <= k < prev.frames() ==> self.level_of(k) == prev.level_of(k)
        &&& forall|k: int| 0 <= k < prev.frames() ==> self.owner_of(k) == prev.owner_of(k)
        &&& forall|k: int|
            0 <= k < prev.frames() && k != c ==> #[trigger] self.table(k) == prev.table(k)
    }

    /// The result of a walk of `virt` through `table`, a table of `level`:
    /// the physical address, or none where an entry on the way is invalid.
    pub closed spec fn walk(&self, table: Seq<PageTableEntry>, virt: u64, level: nat) -> Option<
        PhysAddr,
    >
        decreases 3 - level,
    {
        if level > 3 {
            None
        } else {
            let e = table[level_index(virt, level)].entry;
            if !entry_valid(e) {
                None
            } else if entry_table_bit(e) && level < 3 {
                if self.holds_table(entry_addr(e)) {
                    self.walk(self.table(self.frame_of(entry_addr(e))), virt, level + 1)
                } else {
                    None
                }
            } else if entry_table_bit(e) || level < 3 {
                Some(PhysAddr(((virt & level_offset_mask(level)) + entry_addr(e)) as u64))
            } else {
                None
            }
        }
    }

    /// An empty region of `capacity` frames from physical address `base`.
    pub fn new(base: u64, capacity: usize) -> (r: TableMemory)
        requires
            base % 4096 == 0,
            base + capacity * 4096 <= 0x1_0000_0000_0000,
        ensures
            r.wf(),
            r.base() == base,
            r.capacity() == capacity,
            r.frames() == 0,
            r.free_frames() == capacity,
    {
        TableMemory {
            base,
            capacity,
            tables: Vec::new(),
            levels: Ghost(Seq::empty()),
            owners: Ghost(Seq::empty()),
        }
    }

    /// How many frames are still free.
    pub fn available(&self) -> (r: usize)
        requires
            self.wf(),
        ensures
            r == self.free_frames(),
    {
        self.capacity - self.tables.len()
    }

    /// Takes the next free frame for an empty table of `level`.
    fn alloc_table(&mut self, Ghost(level): Ghost<nat>, Ghost(owner): Ghost<(int, int)>) -> (k: usize)
        requires
            old(self).wf(),
            old(self).free_frames() >= 1,
            1 <= level <= 3,
        ensures
            final(self).wf(),
            final(self).grows_from(old(self), -1),
            k == old(self).frames(),
            final(self).frames() == old(self).frames() + 1,
            final(self).level_of(k as int) == level,
            final(self).owner_of(k as int) == owner,
            forall|i: int| 0 <= i < 512 ==> (#[trigger] final(self).table(k as int)[i]).entry == 0,
    {
        let k = self.tables.len();
        self.tables.push(PageTable::new());
        self.levels = Ghost(self.levels@.push(level));
        self.owners = Ghost(self.owners@.push(owner));
        proof {
            let prev = old(self);
            assert forall|k2: int| 0 <= k2 < prev.frames() implies #[trigger] self.table(k2) == prev.table(k2) by {
                assert(self.tables@[k2] == prev.tables@[k2]);
            }
            assert forall|k2: int, i: int|
                0 <= k2 < self.frames() && 0 <= i < 512 implies self.entry_ok(
                (#[trigger] self.table(k2)[i]).entry,
                self.level_of(k2),
            ) by {
                if k2 < prev.frames() {
                    assert(self.table(k2) == prev.table(k2));
                    assert(prev.entry_ok(prev.table(k2)[i].entry, prev.level_of(k2)));
                } else {
                    assert(self.table(k2)[i].entry == 0);
                }
            }
            lemma_zero_invalid();
            assert forall|k2: int, i: int|
                0 <= k2 < self.frames() && 0 <= i < 512 && is_pointer(
                    #[trigger] self.table(k2)[i].entry,
                    self.level_of(k2),
                ) implies self.owner_of(self.frame_of(entry_addr(self.table(k2)[i].entry))) == (k2, i) by {
                if k2 < prev.frames() {
                    assert(self.table(k2) == prev.table(k2));
                    assert(prev.entry_ok(prev.table(k2)[i].entry, prev.level_of(k2)));
                } else {
                    assert(self.table(k2)[i].entry == 0);
                }
            }
        }
        k
    }

    /// After frames are added, every old descriptor stays legal.
    proof fn lemma_grow_entry_ok(&self, prev: &TableMemory, e: u64, level: nat)
        requires
            prev.wf(),
            self.grows_from(prev, -1),
            prev.entry_ok(e, level),
        ensures
            self.entry_ok(e, level),
            is_pointer(e, level) ==> self.owner_of(self.frame_of(entry_addr(e))) == prev.owner_of(prev.frame_of(entry_addr(e))),
    {
        lemma_valid_nonzero(e);
    }

    /// Writing one entry that is legal at its level, and whose table (if
    /// any) is owned by that entry, keeps the region well formed.
    proof fn lemma_set_entry(&self, before: &TableMemory, c: int, i: int, e: PageTableEntry)
        requires
            before.wf(),
            self.grows_from(before, c),
            self.frames() == before.frames(),
            0 <= c < before.frames(),
            0 <= i < 512,
            self.table(c) == before.table(c).update(i, e),
            before.entry_ok(e.entry, before.level_of(c)),
            is_pointer(e.entry, before.level_of(c)) ==> before.owner_of(before.frame_of(entry_addr(e.entry))) == (c, i),
            self.levels@.len() == before.levels@.len(),
            self.owners@.len() == before.owners@.len(),
        ensures
            self.wf(),
    {
        assert forall|k2: int| 0 <= k2 < self.frames() implies (#[trigger] self.table(k2)).len() == 512 && 1 <= self.level_of(k2) <= 3 by {
            assert(before.table(k2).len() == 512);
        }
        assert forall|k2: int, j: int|
            0 <= k2 < self.frames() && 0 <= j < 512 implies self.entry_ok(
            (#[trigger] self.table(k2)[j]).entry,
            self.level_of(k2),
        ) by {
            assert(before.entry_ok(before.table(k2)[j].entry, before.level_of(k2)));
        }
        assert forall|k2: int, j: int|
            0 <= k2 < self.frames() && 0 <= j < 512 && is_pointer(
                #[trigger] self.table(k2)[j].entry,
                self.level_of(k2),
            ) implies self.owner_of(self.frame_of(entry_addr(self.table(k2)[j].entry))) == (k2, j) by {
            assert(before.entry_ok(before.table(k2)[j].entry, before.level_of(k2)));
            lemma_valid_nonzero(self.table(k2)[j].entry);
            lemma_valid_nonzero(before.table(k2)[j].entry);
        }
    }

    /// How many frames hold a table.
    pub fn frame_count(&self) -> (r: usize)
        ensures
            r == self.frames(),
    {
        self.tables.len()
    }

    /// The descriptor word at entry `i` of the table in frame `k`.
    pub fn table_word(&self, k: usize, i: usize) -> (r: u64)
        requires
            self.wf(),
            k < self.frames(),
            i < TABLE_ENTRIES,
        ensures
            r == self.table(k as int)[i as int].entry,
    {
        assert(self.table(k as int).len() == 512);
        self.tables[k].entries[i].entry
    }

    /// The physical address of frame `k`.
    pub fn frame_address(&self, k: usize) -> (r: PhysAddr)
        requires
            self.wf(),
            k < self.frames(),
        ensures
            r.0 == self.base() + k * 4096,
            r.0 % 4096 == 0,
            r.0 < 0x1_0000_0000_0000,
            self.holds_table(r.0),
            self.frame_of(r.0) == k,
    {
        proof {
            assert(k * 4096 < self.capacity * 4096) by (nonlinear_arith)
                requires
                    k < self.capacity,
            ;
            assert((k * 4096) % 4096 == 0 && (k * 4096) / 4096 == k) by (nonlinear_arith);
        }
        PhysAddr(self.base + (k as u64) * 4096)
    }

    /// The frame that holds the table at `a`.
    fn frame_index(&self, a: PhysAddr) -> (k: usize)
        requires
            self.wf(),
            self.holds_table(a.0),
        ensures
            k == self.frame_of(a.0),
            k < self.frames(),
    {
        ((a.0 - self.base) / 4096) as usize
    }
}

impl PageTable {
    /// A table whose 512 entries are all empty.
    pub fn new() -> (r: PageTable)
        ensures
            r@.len() == 512,
            forall|i: int| 0 <= i < 512 ==> (#[trigger] r@[i]).entry == 0,
            forall|m: &TableMemory| m.wf() ==> #[trigger] r.wf(m),
            forall|m: &TableMemory, v: u64| m.wf() ==> #[trigger] r.translate(m, v) == None::<PhysAddr>,
            forall|m: &TableMemory, v: u64, l: nat| #[trigger] r.tables_needed(m, v, l) == l,
    {
        let mut entries: Vec<PageTableEntry> = Vec::new();
        while entries.len() < TABLE_ENTRIES
            invariant
                entries@.len() <= 512,
                forall|i: int| 0 <= i < entries@.len() ==> (#[trigger] entries@[i]).entry == 0,
            decreases 512 - entries@.len(),
        {
            entries.push(PageTableEntry::new());
        }
        let r = PageTable { entries };
        proof {
            lemma_zero_invalid();
            assert forall|m: &TableMemory, v: u64| m.wf() implies #[trigger] r.translate(m, v)
                == None::<PhysAddr> by {
                lemma_level_index_bound(v, 0);
            }
            assert forall|m: &TableMemory, v: u64, l: nat| #[trigger] r.tables_needed(m, v, l) == l by {
                r.lemma_empty_tables_needed(m, v, l);
            }
        }
        r
    }

    /// In a root whose entries are all empty no path goes past the root, so
    /// a mapping at `level` makes one table for each level down to it.
    proof fn lemma_empty_tables_needed(&self, mem: &TableMemory, virt: u64, level: nat)
        requires
            self@.len() == 512,
            forall|i: int| 0 <= i < 512 ==> (#[trigger] self@[i]).entry == 0,
        ensures
            self.path_frame(mem, virt, level) is None,
            self.tables_needed(mem, virt, level) == level,
        decreases level,
    {
        lemma_zero_invalid();
        lemma_level_index_bound(virt, 0);
        if level > 0 {
            self.lemma_empty_tables_needed(mem, virt, (level - 1) as nat);
        }
    }

    /// A well-formed root has 512 entries.
    pub proof fn lemma_wf_len(&self, mem: &TableMemory)
        requires
            self.wf(mem),
        ensures
            self@.len() == 512,
    {
    }

    /// A fresh root for a user address space: empty but for entries 510 and
    /// 511, copied from `self`, which hold the kernel half.
    pub fn user_process(&self) -> (r: PageTable)
        requires
            self@.len() == 512,
        ensures
            r@.len() == 512,
            r@[510] == self@[510],
            r@[511] == self@[511],
            forall|i: int| 0 <= i < 510 ==> (#[trigger] r@[i]).entry == 0,
            forall|m: &TableMemory| self.wf(m) ==> #[trigger] r.wf(m),
            forall|m: &TableMemory, v: u64|
                self.wf(m) ==> #[trigger] r.translate(m, v) == if level_index(v, 0) >= 510 {
                    self.translate(m, v)
                } else {
                    None::<PhysAddr>
                },
    {
        let mut pg = PageTable::new();
        pg.entries.set(510, self.entries[510]);
        pg.entries.set(511, self.entries[511]);
        proof {
            lemma_zero_invalid();
            assert forall|m: &TableMemory| self.wf(m) implies #[trigger] pg.wf(m) by {
                assert forall|i: int| 0 <= i < 512 implies m.entry_ok((#[trigger] pg@[i]).entry, 0) by {
                    if i >= 510 {
                        assert(pg@[i] == self@[i]);
                    }
                }
                assert forall|i: int|
                    0 <= i < 512 && is_pointer((#[trigger] pg@[i]).entry, 0) implies m.owner_of(
                    m.frame_of(entry_addr(pg@[i].entry)),
                ) == (-1int, i) by {
                    if i >= 510 {
                        assert(pg@[i] == self@[i]);
                    }
                }
            }
            assert forall|m: &TableMemory, v: u64| self.wf(m) implies #[trigger] pg.translate(m, v)
                == if level_index(v, 0) >= 510 {
                self.translate(m, v)
            } else {
                None::<PhysAddr>
            } by {
                lemma_level_index_bound(v, 0);
                if level_index(v, 0) >= 510 {
                    assert(pg@[level_index(v, 0)] == self@[level_index(v, 0)]);
                }
            }
        }
        pg
    }

    /// The descriptor word at entry `i`.
    pub fn entry_word(&self, i: usize) -> (r: u64)
        requires
            self@.len() == 512,
            i < TABLE_ENTRIES,
        ensures
            r == self@[i as int].entry,
    {
        self.entries[i].entry
    }

    /// The invariant of an address space rooted at `self`: the region is
    /// well formed and every root entry is empty or points to a table of
    /// level 1.
    pub closed spec fn wf(&self, mem: &TableMemory) -> bool {
        &&& mem.wf()
        &&& self@.len() == 512
        &&& forall|i: int| 0 <= i < 512 ==> mem.entry_ok((#[trigger] self@[i]).entry, 0)
        &&& forall|i: int|
            0 <= i < 512 && is_pointer((#[trigger] self@[i]).entry, 0) ==> mem.owner_of(
                mem.frame_of(entry_addr(self@[i].entry)),
            ) == (-1int, i)
    }

    /// Where `virt` translates to, if anywhere.
    pub closed spec fn translate(&self, mem: &TableMemory, virt: u64) -> Option<PhysAddr> {
        mem.walk(self@, virt, 0)
    }

    /// The frame of the table of `level` (1 to 3) on the path of `virt`, if
    /// the walk gets that far through table descriptors.
    pub closed spec fn path_frame(&self, mem: &TableMemory, virt: u64, level: nat) -> Option<int>
        decreases level,
    {
        if level == 0 || level > 3 {
            None
        } else {
            let e = if level == 1 {
                self@[level_index(virt, 0)].entry
            } else {
                match self.path_frame(mem, virt, (level - 1) as nat) {
                    Some(p) => mem.table(p)[level_index(virt, (level - 1) as nat)].entry,
                    None => 0,
                }
            };
            if entry_valid(e) && entry_table_bit(e) && mem.holds_table(entry_addr(e)) {
                Some(mem.frame_of(entry_addr(e)))
            } else {
                None
            }
        }
    }

    /// Whether the entry that `virt` selects at `level` (1 to 3) is `e`.
    pub closed spec fn maps_leaf(&self, mem: &TableMemory, virt: u64, level: nat, e: u64) -> bool {
        match self.path_frame(mem, virt, level) {
            Some(k) => mem.table(k)[level_index(virt, level)].entry == e,
            None => false,
        }
    }

    proof fn lemma_path_frame_level(&self, mem: &TableMemory, virt: u64, level: nat)
        requires
            self.wf(mem),
            self.path_frame(mem, virt, level) is Some,
        ensures
            0 <= self.path_frame(mem, virt, level)->0 < mem.frames(),
            mem.level_of(self.path_frame(mem, virt, level)->0) == level,
        decreases level,
    {
        lemma_zero_invalid();
        lemma_level_index_bound(virt, 0);
        lemma_level_index_bound(virt, (level - 1) as nat);
        if level > 1 {
            self.lemma_path_frame_level(mem, virt, (level - 1) as nat);
        }
    }

    proof fn lemma_path_frame_stable(
        &self,
        mem: &TableMemory,
        mem2: &TableMemory,
        virt: u64,
        level: nat,
        c: int,
    )
        requires
            self.wf(mem),
            mem2.grows_from(mem, c),
            0 <= c < mem.frames() ==> mem.level_of(c) >= level,
            self.path_frame(mem, virt, level) is Some,
        ensures
            self.path_frame(mem2, virt, level) == self.path_frame(mem, virt, level),
        decreases level,
    {
        lemma_zero_invalid();
        if level > 1 {
            let l1 = (level - 1) as nat;
            self.lemma_path_frame_stable(mem, mem2, virt, l1, c);
            self.lemma_path_frame_level(mem, virt, l1);
            let p = self.path_frame(mem, virt, l1)->0;
            assert(mem2.table(p) == mem.table(p));
        }
    }

    /// Following the path of `virt` down to `level`, a walk of `v` that
    /// selects the same entries on the way ends where the walk from that
    /// table ends.
    proof fn lemma_walk_follows_path(&self, mem: &TableMemory, virt: u64, v: u64, level: nat)
        requires
            self.wf(mem),
            1 <= level <= 3,
            self.path_frame(mem, virt, level) is Some,
            forall|l: nat| l < level ==> level_index(v, l) == level_index(virt, l),
        ensures
            self.translate(mem, v) == mem.walk(
                mem.table(self.path_frame(mem, virt, level)->0),
                v,
                level,
            ),
        decreases level,
    {
        lemma_zero_invalid();
        let l1 = (level - 1) as nat;
        assert(level_index(v, l1) == level_index(virt, l1));
        if level > 1 {
            self.lemma_walk_follows_path(mem, virt, v, l1);
        }
    }

    /// A leaf entry at `level` on the path of `virt` translates every address
    /// of its block.
    proof fn lemma_leaf_translates(&self, mem: &TableMemory, virt: u64, level: nat, e: u64, v: u64)
        requires
            self.wf(mem),
            1 <= level <= 3,
            self.maps_leaf(mem, virt, level, e),
            entry_valid(e),
            entry_table_bit(e) == (level == 3),
            v & !level_offset_mask(level) == virt & !level_offset_mask(level),
        ensures
            self.translate(mem, v) == Some(
                PhysAddr(((v & level_offset_mask(level)) + entry_addr(e)) as u64),
            ),
    {
        assert forall|l: nat| l < level implies level_index(v, l) == level_index(virt, l) by {
            lemma_same_block_same_index(v, virt, level, l);
        }
        lemma_same_block_same_index(v, virt, level, level);
        self.lemma_walk_follows_path(mem, virt, v, level);
    }

    /// How many tables a mapping at `level` for `virt` has to make: one for
    /// each level from the first on the path that has no table down to
    /// `level`.
    pub closed spec fn tables_needed(&self, mem: &TableMemory, virt: u64, level: nat) -> nat
        decreases level,
    {
        if level == 0 || self.path_frame(mem, virt, level) is Some {
            0
        } else {
            1 + self.tables_needed(mem, virt, (level - 1) as nat)
        }
    }

    /// Once the path of `virt` ends above `final_level`, at `l`, the
    /// mapping makes one table for each level below `l`.
    proof fn lemma_tables_needed(&self, mem: &TableMemory, virt: u64, l: nat, final_level: nat)
        requires
            l == 0 || self.path_frame(mem, virt, l) is Some,
            l < final_level <= 3,
            self.path_frame(mem, virt, l + 1) is None,
        ensures
            self.tables_needed(mem, virt, final_level) == final_level - l,
            self.path_frame(mem, virt, final_level) is None,
        decreases final_level,
    {
        lemma_zero_invalid();
        assert(self.tables_needed(mem, virt, l) == 0);
        if final_level > l + 1 {
            self.lemma_tables_needed(mem, virt, l, (final_level - 1) as nat);
            assert(self.path_frame(mem, virt, final_level) is None);
        }
    }

    /// How many tables a mapping at `final_level` for `virt` has to make.
    pub fn tables_to_make(&self, mem: &TableMemory, virt: u64, final_level: usize) -> (r: usize)
        requires
            self.wf(mem),
            1 <= final_level <= 3,
        ensures
            r == self.tables_needed(mem, virt, final_level as nat),
    {
        let idx0 = index_of(virt, 0);
        let e0 = self.entries[idx0];
        if !(e0.entry & FLAG_VALID == FLAG_VALID && e0.entry & FLAG_TABLE == FLAG_TABLE) {
            proof {
                self.lemma_tables_needed(mem, virt, 0, final_level as nat);
            }
            return final_level;
        }
        proof {
            assert(mem.entry_ok(e0.entry, 0));
            lemma_valid_nonzero(e0.entry);
        }
        let mut cur = mem.frame_index(e0.addr());
        let mut level: usize = 1;
        proof {
            self.lemma_path_frame_level(mem, virt, 1);
        }
        while level < final_level
            invariant
                self.wf(mem),
                1 <= level <= final_level <= 3,
                self.path_frame(mem, virt, level as nat) == Some(cur as int),
                cur < mem.frames(),
                mem.level_of(cur as int) == level,
            decreases final_level - level,
        {
            let idx = index_of(virt, level);
            assert(mem.table(cur as int).len() == 512);
            let e = mem.tables[cur].entries[idx];
            assert(mem.table(cur as int)[idx as int] == e);
            if !(e.entry & FLAG_VALID == FLAG_VALID && e.entry & FLAG_TABLE == FLAG_TABLE) {
                proof {
                    self.lemma_tables_needed(mem, virt, level as nat, final_level as nat);
                }
                return final_level - level;
            }
            proof {
                assert(mem.entry_ok(e.entry, level as nat));
                lemma_valid_nonzero(e.entry);
            }
            cur = mem.frame_index(e.addr());
            level = level + 1;
            proof {
                self.lemma_path_frame_level(mem, virt, level as nat);
            }
        }
        0
    }

    /// Whether frame `k`, new since some earlier state, holds a table of a
    /// level from 1 to `lv` on the path of `virt` whose entries are all zero
    /// but the one on that path.
    pub closed spec fn fresh_on_path(&self, mem: &TableMemory, virt: u64, k: int, lv: nat) -> bool {
        &&& 1 <= mem.level_of(k) <= lv
        &&& self.path_frame(mem, virt, mem.level_of(k)) == Some(k)
        &&& forall|i: int|
            0 <= i < 512 && i != level_index(virt, mem.level_of(k)) ==> (#[trigger] mem.table(k)[i]).entry == 0
    }

    /// Whether `self` and `mem` differ from `prev_root` and `prev` only on
    /// the path of `virt` down to level `lv`: the root only in the entry that
    /// `virt` selects, each old table only in the entry that `virt` selects
    /// and only where that table is on the path at a level up to `lv`, and
    /// every added table is on that path and empty but for its path entry.
    pub closed spec fn only_path_changed(
        &self,
        mem: &TableMemory,
        prev_root: &PageTable,
        prev: &TableMemory,
        virt: u64,
        lv: nat,
    ) -> bool {
        &&& forall|i: int| 0 <= i < 512 && i != level_index(virt, 0) ==> #[trigger] self@[i] == prev_root@[i]
        &&& forall|k: int, i: int|
            0 <= k < prev.frames() && 0 <= i < 512 && #[trigger] mem.table(k)[i] != prev.table(k)[i] ==> {
                &&& 1 <= mem.level_of(k) <= lv
                &&& self.path_frame(mem, virt, mem.level_of(k)) == Some(k)
                &&& i == level_index(virt, mem.level_of(k))
            }
        &&& forall|k: int| prev.frames() <= k < mem.frames() ==> #[trigger] self.fresh_on_path(mem, virt, k, lv)
    }

    proof fn lemma_path_frames_stable(&self, mem: &TableMemory, mem2: &TableMemory, virt: u64, lv: nat, c: int)
        requires
            self.wf(mem),
            mem2.grows_from(mem, c),
            0 <= c < mem.frames() ==> mem.level_of(c) >= lv,
        ensures
            forall|l: nat|
                1 <= l <= lv && self.path_frame(mem, virt, l) is Some ==> #[trigger] self.path_frame(mem2, virt, l)
                    == self.path_frame(mem, virt, l),
    {
        assert forall|l: nat|
            1 <= l <= lv && self.path_frame(mem, virt, l) is Some implies #[trigger] self.path_frame(mem2, virt, l)
            == self.path_frame(mem, virt, l) by {
            self.lemma_path_frame_stable(mem, mem2, virt, l, c);
        }
    }

    /// Whether the entry on the path of `virt` at `l` (1 or 2) is a block.
    pub closed spec fn block_on_path(&self, mem: &TableMemory, virt: u64, l: nat) -> bool {
        match self.path_frame(mem, virt, l) {
            Some(p) => {
                let e = mem.table(p)[level_index(virt, l)].entry;
                entry_valid(e) && !entry_table_bit(e)
            },
            None => false,
        }
    }

    /// Whether some block above `level` on the path of `virt` also maps `v`.
    pub closed spec fn covered_by_block(&self, mem: &TableMemory, virt: u64, v: u64, level: nat) -> bool {
        exists|l: nat| 1 <= l < level && #[trigger] self.block_on_path(mem, virt, l) && same_indices(v, virt, l)
    }

    /// Whether `r2` and `m2` differ from `self` and `m` only in the entry
    /// `i` of the table in frame `c` (of the root where `c` is -1) and in
    /// frames added after the old ones.
    closed spec fn changed_only(&self, m: &TableMemory, r2: &PageTable, m2: &TableMemory, c: int, i: int) -> bool {
        &&& m2.base == m.base
        &&& m.frames() <= m2.frames()
        &&& forall|k: int| 0 <= k < m.frames() ==> m2.level_of(k) == m.level_of(k)
        &&& forall|k: int| 0 <= k < m.frames() && k != c ==> #[trigger] m2.table(k) == m.table(k)
        &&& 0 <= c < m.frames() ==> m2.table(c).len() == 512 && forall|j: int|
            0 <= j < 512 && j != i ==> #[trigger] m2.table(c)[j] == m.table(c)[j]
        &&& r2@.len() == 512
        &&& forall|j: int| 0 <= j < 512 && !(c == -1 && j == i) ==> #[trigger] r2@[j] == self@[j]
    }

    /// Two addresses whose paths reach the same table agree on every index
    /// above it: each table has a single parent entry.
    proof fn lemma_path_unique(&self, mem: &TableMemory, v: u64, w: u64, level: nat)
        requires
            self.wf(mem),
            1 <= level <= 3,
            self.path_frame(mem, v, level) is Some,
            self.path_frame(mem, v, level) == self.path_frame(mem, w, level),
        ensures
            forall|l: nat| l < level ==> #[trigger] level_index(v, l) == level_index(w, l),
        decreases level,
    {
        lemma_zero_invalid();
        let l1 = (level - 1) as nat;
        lemma_level_index_bound(v, l1);
        lemma_level_index_bound(w, l1);
        if level == 1 {
            let ev = self@[level_index(v, 0)].entry;
            let ew = self@[level_index(w, 0)].entry;
            assert(mem.owner_of(mem.frame_of(entry_addr(ev))) == (-1int, level_index(v, 0)));
            assert(mem.owner_of(mem.frame_of(entry_addr(ew))) == (-1int, level_index(w, 0)));
        } else {
            self.lemma_path_frame_level(mem, v, l1);
            self.lemma_path_frame_level(mem, w, l1);
            let pv = self.path_frame(mem, v, l1)->0;
            let pw = self.path_frame(mem, w, l1)->0;
            let ev = mem.table(pv)[level_index(v, l1)].entry;
            let ew = mem.table(pw)[level_index(w, l1)].entry;
            assert(is_pointer(ev, mem.level_of(pv)));
            assert(is_pointer(ew, mem.level_of(pw)));
            assert(mem.owner_of(mem.frame_of(entry_addr(ev))) == (pv, level_index(v, l1)));
            assert(mem.owner_of(mem.frame_of(entry_addr(ew))) == (pw, level_index(w, l1)));
            self.lemma_path_unique(mem, v, w, l1);
        }
    }

    /// A walk that never reads the changed entry ends where it ended before.
    proof fn lemma_walk_unchanged(
        &self,
        m: &TableMemory,
        r2: &PageTable,
        m2: &TableMemory,
        v: u64,
        l: nat,
        c: int,
        i: int,
    )
        requires
            self.wf(m),
            self.changed_only(m, r2, m2, c, i),
            l <= 3,
            l == 0 || self.path_frame(m, v, l) is Some,
            c == -1 ==> level_index(v, 0) != i,
            c >= 0 ==> forall|ll: nat|
                1 <= ll <= 3 && #[trigger] self.path_frame(m, v, ll) == Some(c) ==> level_index(v, ll) != i,
        ensures
            l == 0 ==> m2.walk(r2@, v, 0) == m.walk(self@, v, 0),
            l > 0 ==> m2.walk(m2.table(self.path_frame(m, v, l)->0), v, l) == m.walk(
                m.table(self.path_frame(m, v, l)->0),
                v,
                l,
            ),
        decreases 3 - l,
    {
        lemma_level_index_bound(v, l);
        let x = level_index(v, l);
        let e = if l == 0 {
            self@[x].entry
        } else {
            m.table(self.path_frame(m, v, l)->0)[x].entry
        };
        if l == 0 {
            assert(r2@[x] == self@[x]);
            assert(m.entry_ok(e, 0));
        } else {
            self.lemma_path_frame_level(m, v, l);
            let p = self.path_frame(m, v, l)->0;
            if p == c {
                assert(x != i);
            }
            assert(m2.table(p)[x] == m.table(p)[x]);
            assert(m.entry_ok(m.table(p)[x].entry, m.level_of(p)));
        }
        lemma_valid_nonzero(e);
        if l < 3 && entry_valid(e) && entry_table_bit(e) {
            assert(self.path_frame(m, v, l + 1) == Some(m.frame_of(entry_addr(e))));
            self.lemma_walk_unchanged(m, r2, m2, v, l + 1, c, i);
        }
    }

    /// The walk of `v` through the fresh, empty table that now sits at
    /// `level + 1` on the path of `virt` finds nothing.
    proof fn lemma_walk_into_fresh(&self, mem: &TableMemory, virt: u64, v: u64, level: nat, k: int)
        requires
            self.wf(mem),
            1 <= level + 1 <= 3,
            self.path_frame(mem, virt, level + 1) == Some(k),
            same_indices(v, virt, level),
            forall|j: int| 0 <= j < 512 ==> (#[trigger] mem.table(k)[j]).entry == 0,
        ensures
            self.translate(mem, v) == None::<PhysAddr>,
    {
        lemma_zero_invalid();
        lemma_level_index_bound(v, level + 1);
        assert forall|l: nat| l < level + 1 implies level_index(v, l) == level_index(virt, l) by {
            assert(level_index(v, l) == level_index(virt, l));
        }
        self.lemma_walk_follows_path(mem, virt, v, level + 1);
    }

    /// Installs `entry` at `final_level` on the path of `virt`, making
    /// tables on the way where there are none. A block that covers the path
    /// above `final_level` is replaced by a fresh table. Addresses that do
    /// not share the entry, and that no replaced block mapped, translate as
    /// before.
    fn map_internal(
        &mut self,
        mem: &mut TableMemory,
        virt: u64,
        entry: PageTableEntry,
        final_level: usize,
    )
        requires
            old(self).wf(old(mem)),
            1 <= final_level <= 3,
            old(mem).free_frames() >= old(self).tables_needed(old(mem), virt, final_level as nat),
            entry_valid(entry.entry),
            entry_table_bit(entry.entry) == (final_level == 3),
        ensures
            final(self).wf(final(mem)),
            final(self).maps_leaf(final(mem), virt, final_level as nat, entry.entry),
            final(mem).base() == old(mem).base(),
            final(mem).capacity() == old(mem).capacity(),
            final(mem).free_frames() == old(mem).free_frames() - old(self).tables_needed(
                old(mem),
                virt,
                final_level as nat,
            ),
            forall|v: u64|
                !same_indices(v, virt, final_level as nat) && !old(self).covered_by_block(
                    old(mem),
                    virt,
                    v,
                    final_level as nat,
                ) ==> #[trigger] final(self).translate(final(mem), v) == old(self).translate(old(mem), v),
            final(self).only_path_changed(final(mem), old(self), old(mem), virt, final_level as nat),
    {
        let ghost r0 = *self;
        let ghost m0 = *mem;
        let ghost fl = final_level as nat;
        proof {
            lemma_zero_invalid();
        }
        let idx0 = index_of(virt, 0);
        let e0 = self.entries[idx0];
        if !(e0.entry & FLAG_VALID == FLAG_VALID && e0.entry & FLAG_TABLE == FLAG_TABLE) {
            proof {
                r0.lemma_tables_needed(&m0, virt, 0, fl);
            }
            let k = mem.alloc_table(Ghost(1), Ghost((-1int, idx0 as int)));
            let a = mem.frame_address(k);
            let te = make_table_entry(a);
            proof {
                lemma_table_descriptor(a.0);
            }
            let ghost m1 = *mem;
            self.entries.set(idx0, te);
            proof {
                assert forall|i: int| 0 <= i < 512 implies mem.entry_ok((#[trigger] self@[i]).entry, 0) by {
                    if i != idx0 {
                        mem.lemma_grow_entry_ok(&m0, self@[i].entry, 0);
                    }
                }
                assert forall|i: int|
                    0 <= i < 512 && is_pointer((#[trigger] self@[i]).entry, 0) implies mem.owner_of(
                    mem.frame_of(entry_addr(self@[i].entry)),
                ) == (-1int, i) by {
                    if i != idx0 {
                        mem.lemma_grow_entry_ok(&m0, self@[i].entry, 0);
                    }
                }
                assert(r0.changed_only(&m0, self, mem, -1, idx0 as int));
                assert(m0.entry_ok(e0.entry, 0));
                lemma_valid_nonzero(e0.entry);
                assert(self.path_frame(mem, virt, 1) == Some(k as int));
                if fl > 1 {
                    lemma_level_index_bound(virt, 1);
                    assert(mem.table(k as int)[level_index(virt, 1)].entry == 0);
                    assert(self.path_frame(mem, virt, 2) is None);
                    self.lemma_tables_needed(mem, virt, 1, fl);
                }
                assert forall|v: u64|
                    !same_indices(v, virt, fl) && !r0.covered_by_block(&m0, virt, v, fl) implies #[trigger] self.translate(mem, v) == r0.translate(&m0, v) by {
                    if level_index(v, 0) == idx0 {
                        assert(same_indices(v, virt, 0));
                        self.lemma_walk_into_fresh(mem, virt, v, 0, k as int);
                    } else {
                        r0.lemma_walk_unchanged(&m0, self, mem, v, 0, -1, idx0 as int);
                    }
                }
            }
        } else {
            proof {
                assert(mem.entry_ok(e0.entry, 0));
                lemma_valid_nonzero(e0.entry);
            }
        }
        let mut cur = mem.frame_index(self.entries[idx0].addr());
        let mut level: usize = 1;
        proof {
            lemma_valid_nonzero(self@[idx0 as int].entry);
            self.lemma_path_frame_level(mem, virt, 1);
        }
        while level < final_level
            invariant
                self.wf(mem),
                r0.wf(&m0),
                fl == final_level,
                1 <= level <= final_level <= 3,
                mem.free_frames() >= self.tables_needed(mem, virt, fl),
                mem.free_frames() - self.tables_needed(mem, virt, fl) == m0.free_frames()
                    - r0.tables_needed(&m0, virt, fl),
                mem.base() == m0.base(),
                mem.capacity() == m0.capacity(),
                self.path_frame(mem, virt, level as nat) == Some(cur as int),
                cur < mem.frames(),
                mem.level_of(cur as int) == level,
                m0.frames() <= mem.frames(),
                forall|k: int| 0 <= k < m0.frames() ==> mem.level_of(k) == m0.level_of(k),
                forall|k: int|
                    0 <= k < m0.frames() && m0.level_of(k) >= level ==> #[trigger] mem.table(k) == m0.table(k),
                cur < m0.frames() ==> r0.path_frame(&m0, virt, level as nat) == Some(cur as int),
                cur >= m0.frames() ==> forall|j: int| 0 <= j < 512 ==> (#[trigger] mem.table(cur as int)[j]).entry == 0,
                forall|v: u64|
                    !same_indices(v, virt, fl) && !r0.covered_by_block(&m0, virt, v, fl) ==> #[trigger] self.translate(mem, v) == r0.translate(&m0, v),
                self.only_path_changed(mem, &r0, &m0, virt, level as nat),
            decreases final_level - level,
        {
            let idx = index_of(virt, level);
            assert(mem.table(cur as int).len() == 512);
            let e = mem.tables[cur].entries[idx];
            assert(mem.table(cur as int)[idx as int] == e);
            let ghost before = *mem;
            if !(e.entry & FLAG_VALID == FLAG_VALID && e.entry & FLAG_TABLE == FLAG_TABLE) {
                proof {
                    self.lemma_tables_needed(&before, virt, level as nat, fl);
                }
                let k = mem.alloc_table(Ghost((level + 1) as nat), Ghost((cur as int, idx as int)));
                let a = mem.frame_address(k);
                let te = make_table_entry(a);
                proof {
                    lemma_table_descriptor(a.0);
                    self.lemma_path_frame_stable(&before, mem, virt, level as nat, -1);
                    assert forall|i: int| 0 <= i < 512 implies mem.entry_ok((#[trigger] self@[i]).entry, 0) by {
                        mem.lemma_grow_entry_ok(&before, self@[i].entry, 0);
                    }
                    assert forall|i: int|
                        0 <= i < 512 && is_pointer((#[trigger] self@[i]).entry, 0) implies mem.owner_of(
                        mem.frame_of(entry_addr(self@[i].entry)),
                    ) == (-1int, i) by {
                        mem.lemma_grow_entry_ok(&before, self@[i].entry, 0);
                    }
                }
                let ghost grown = *mem;
                assert(mem.table(cur as int) == before.table(cur as int));
                mem.tables[cur].entries[idx] = te;
                proof {
                    assert(mem.table(cur as int) == grown.table(cur as int).update(idx as int, te));
                    assert forall|k2: int| 0 <= k2 < grown.frames() && k2 != cur implies #[trigger] mem.table(k2) == grown.table(k2) by {}
                    mem.lemma_set_entry(&grown, cur as int, idx as int, te);
                    assert forall|i: int| 0 <= i < 512 implies mem.entry_ok((#[trigger] self@[i]).entry, 0) by {
                        assert(grown.entry_ok(self@[i].entry, 0));
                    }
                    self.lemma_path_frame_stable(&grown, mem, virt, level as nat, cur as int);
                    self.lemma_path_frames_stable(&before, &grown, virt, level as nat, -1);
                    self.lemma_path_frames_stable(&grown, mem, virt, level as nat, cur as int);
                    let l1 = (level + 1) as nat;
                    assert forall|k2: int, i: int|
                        0 <= k2 < m0.frames() && 0 <= i < 512 && #[trigger] mem.table(k2)[i] != m0.table(k2)[i] implies {
                        &&& 1 <= mem.level_of(k2) <= l1
                        &&& self.path_frame(mem, virt, mem.level_of(k2)) == Some(k2)
                        &&& i == level_index(virt, mem.level_of(k2))
                    } by {
                        if !(k2 == cur && i == idx) {
                            assert(grown.table(k2) == before.table(k2));
                            assert(mem.table(k2)[i] == before.table(k2)[i]);
                            assert(before.table(k2)[i] != m0.table(k2)[i]);
                        }
                    }
                    assert forall|k2: int| m0.frames() <= k2 < mem.frames() implies #[trigger] self.fresh_on_path(mem, virt, k2, l1) by {
                        if k2 != k {
                            assert(self.fresh_on_path(&before, virt, k2, level as nat));
                            assert(grown.table(k2) == before.table(k2));
                            assert forall|i: int|
                                0 <= i < 512 && i != level_index(virt, mem.level_of(k2)) implies (#[trigger] mem.table(k2)[i]).entry == 0 by {
                                assert(before.table(k2)[i].entry == 0);
                            }
                        } else {
                            assert forall|i: int|
                                0 <= i < 512 && i != level_index(virt, mem.level_of(k2)) implies (#[trigger] mem.table(k2)[i]).entry == 0 by {
                                assert(grown.table(k2)[i].entry == 0);
                            }
                        }
                    }
                    assert(self.only_path_changed(mem, &r0, &m0, virt, l1));
                    assert(self.changed_only(&before, self, mem, cur as int, idx as int));
                    assert(self.path_frame(mem, virt, (level + 1) as nat) == Some(k as int));
                    if level + 1 < fl {
                        lemma_zero_invalid();
                        lemma_level_index_bound(virt, (level + 1) as nat);
                        assert(mem.table(k as int)[level_index(virt, (level + 1) as nat)].entry == 0);
                        assert(self.path_frame(mem, virt, (level + 2) as nat) is None);
                        self.lemma_tables_needed(mem, virt, (level + 1) as nat, fl);
                    }
                    assert forall|v: u64|
                        !same_indices(v, virt, fl) && !r0.covered_by_block(&m0, virt, v, fl) implies #[trigger] self.translate(mem, v) == r0.translate(&m0, v) by {
                        let reaches = exists|ll: nat| 1 <= ll <= 3 && #[trigger] self.path_frame(&before, v, ll) == Some(cur as int) && level_index(v, ll) == idx;
                        if reaches {
                            let ll = choose|ll: nat| 1 <= ll <= 3 && #[trigger] self.path_frame(&before, v, ll) == Some(cur as int) && level_index(v, ll) == idx;
                            self.lemma_path_frame_level(&before, v, ll);
                            self.lemma_path_unique(&before, v, virt, level as nat);
                            assert(same_indices(v, virt, level as nat));
                            if cur >= m0.frames() {
                                assert(before.table(cur as int)[idx as int].entry == 0);
                                lemma_zero_invalid();
                            }
                            if entry_valid(e.entry) {
                                assert(cur < m0.frames());
                                assert(m0.table(cur as int) == before.table(cur as int));
                                assert(r0.block_on_path(&m0, virt, level as nat));
                                assert(r0.covered_by_block(&m0, virt, v, fl));
                            }
                            assert forall|l: nat| l < level implies level_index(v, l) == level_index(virt, l) by {
                                assert(level_index(v, l) == level_index(virt, l));
                            }
                            self.lemma_walk_follows_path(&before, virt, v, level as nat);
                            self.lemma_walk_into_fresh(mem, virt, v, level as nat, k as int);
                        } else {
                            self.lemma_walk_unchanged(&before, self, mem, v, 0, cur as int, idx as int);
                        }
                        assert(self.translate(&before, v) == r0.translate(&m0, v));
                    }
                }
            } else {
                proof {
                    assert(mem.entry_ok(e.entry, level as nat));
                    lemma_valid_nonzero(e.entry);
                    let l1 = (level + 1) as nat;
                    assert forall|k2: int| m0.frames() <= k2 < mem.frames() implies #[trigger] self.fresh_on_path(mem, virt, k2, l1) by {
                        assert(self.fresh_on_path(mem, virt, k2, level as nat));
                    }
                    assert(self.only_path_changed(mem, &r0, &m0, virt, l1));
                }
            }
            proof {
                lemma_valid_nonzero(mem.table(cur as int)[idx as int].entry);
                assert(mem.entry_ok(mem.table(cur as int)[idx as int].entry, level as nat));
            }
            let ghost prev_cur = cur;
            cur = mem.frame_index(mem.tables[cur].entries[idx].addr());
            level = level + 1;
            proof {
                self.lemma_path_frame_level(mem, virt, level as nat);
                if cur < m0.frames() && prev_cur < m0.frames() {
                    assert(mem.table(prev_cur as int) == m0.table(prev_cur as int));
                }
                if cur < m0.frames() {
                    assert(prev_cur < m0.frames()) by {
                        if prev_cur >= m0.frames() {
                            assert(mem.table(prev_cur as int)[idx as int].entry == 0);
                        }
                    }
                    assert(mem.table(prev_cur as int) == m0.table(prev_cur as int));
                }
            }
        }
        let idx = index_of(virt, final_level);
        assert(mem.table(cur as int).len() == 512);
        let ghost before = *mem;
        mem.tables[cur].entries[idx] = entry;
        proof {
            assert(mem.table(cur as int) == before.table(cur as int).update(idx as int, entry));
            assert forall|k2: int| 0 <= k2 < before.frames() && k2 != cur implies #[trigger] mem.table(k2) == before.table(k2) by {}
            lemma_valid_nonzero(entry.entry);
            mem.lemma_set_entry(&before, cur as int, idx as int, entry);
            assert forall|i: int| 0 <= i < 512 implies mem.entry_ok((#[trigger] self@[i]).entry, 0) by {
                assert(before.entry_ok(self@[i].entry, 0));
            }
            self.lemma_path_frame_stable(&before, mem, virt, final_level as nat, cur as int);
            self.lemma_path_frames_stable(&before, mem, virt, fl, cur as int);
            assert forall|k2: int, i: int|
                0 <= k2 < m0.frames() && 0 <= i < 512 && #[trigger] mem.table(k2)[i] != m0.table(k2)[i] implies {
                &&& 1 <= mem.level_of(k2) <= fl
                &&& self.path_frame(mem, virt, mem.level_of(k2)) == Some(k2)
                &&& i == level_index(virt, mem.level_of(k2))
            } by {
                if !(k2 == cur && i == idx) {
                    assert(mem.table(k2)[i] == before.table(k2)[i]);
                    assert(before.table(k2)[i] != m0.table(k2)[i]);
                }
            }
            assert forall|k2: int| m0.frames() <= k2 < mem.frames() implies #[trigger] self.fresh_on_path(mem, virt, k2, fl) by {
                assert(self.fresh_on_path(&before, virt, k2, fl));
                assert forall|i: int|
                    0 <= i < 512 && i != level_index(virt, mem.level_of(k2)) implies (#[trigger] mem.table(k2)[i]).entry == 0 by {
                    assert(before.table(k2)[i].entry == 0);
                }
            }
            assert(self.changed_only(&before, self, mem, cur as int, idx as int));
            assert forall|v: u64|
                !same_indices(v, virt, fl) && !r0.covered_by_block(&m0, virt, v, fl) implies #[trigger] self.translate(mem, v) == r0.translate(&m0, v) by {
                let reaches = exists|ll: nat| 1 <= ll <= 3 && #[trigger] self.path_frame(&before, v, ll) == Some(cur as int) && level_index(v, ll) == idx;
                if reaches {
                    let ll = choose|ll: nat| 1 <= ll <= 3 && #[trigger] self.path_frame(&before, v, ll) == Some(cur as int) && level_index(v, ll) == idx;
                    self.lemma_path_frame_level(&before, v, ll);
                    self.lemma_path_unique(&before, v, virt, fl);
                    assert forall|l: nat| l <= fl implies #[trigger] level_index(v, l) == level_index(virt, l) by {
                        if l < fl {
                            assert(level_index(v, l) == level_index(virt, l));
                        }
                    }
                    assert(same_indices(v, virt, fl));
                } else {
                    self.lemma_walk_unchanged(&before, self, mem, v, 0, cur as int, idx as int);
                }
                assert(self.translate(&before, v) == r0.translate(&m0, v));
            }
        }
    }
}

/// An address aligned to a block is aligned to a page.
proof fn lemma_block_aligned_page(x: u64, level: nat)
    requires
        1 <= level <= 3,
        x & level_offset_mask(level) == 0,
    ensures
        x % 4096 == 0,
{
    let m = level_offset_mask(level);
    assert(m == 0xfff || m == 0x1f_ffff || m == 0x3fff_ffff);
    assert((m == 0xfff || m == 0x1f_ffff || m == 0x3fff_ffff) && x & m == 0 ==> x % 4096 == 0)
        by (bit_vector);
}

impl PageTable {
    /// Maps `phys` at `final_level` for every address of the block or page
    /// that holds `virt`.
    fn map_leaf(
        &mut self,
        mem: &mut TableMemory,
        phys: PhysAddr,
        virt: u64,
        perm: PagePermission,
        final_level: usize,
    )
        requires
            old(self).wf(old(mem)),
            1 <= final_level <= 3,
            phys.0 & level_offset_mask(final_level as nat) == 0,
            old(mem).free_frames() >= old(self).tables_needed(old(mem), virt, final_level as nat),
        ensures
            final(self).wf(final(mem)),
            final(self).maps_leaf(
                final(mem),
                virt,
                final_level as nat,
                leaf_descriptor(phys.0, leaf_kind(final_level as nat), perm.bits),
            ),
            forall|v: u64|
                v & !level_offset_mask(final_level as nat) == virt & !level_offset_mask(
                    final_level as nat,
                ) ==> #[trigger] final(self).translate(final(mem), v) == Some(
                    PhysAddr(
                        ((v & level_offset_mask(final_level as nat)) + (phys.0 & ADDR_MASK)) as u64,
                    ),
                ),
            final(mem).base() == old(mem).base(),
            final(mem).capacity() == old(mem).capacity(),
            final(mem).free_frames() == old(mem).free_frames() - old(self).tables_needed(
                old(mem),
                virt,
                final_level as nat,
            ),
            forall|v: u64|
                !same_indices(v, virt, final_level as nat) && !old(self).covered_by_block(
                    old(mem),
                    virt,
                    v,
                    final_level as nat,
                ) ==> #[trigger] final(self).translate(final(mem), v) == old(self).translate(old(mem), v),
            final(self).only_path_changed(final(mem), old(self), old(mem), virt, final_level as nat),
    {
        let ghost l = final_level as nat;
        proof {
            lemma_block_aligned_page(phys.0, l);
        }
        let kind: u64 = if final_level == 3 { FLAG_TABLE } else { 0 };
        let entry = make_leaf_entry(phys, kind, perm);
        proof {
            lemma_leaf_descriptor(phys.0, kind, perm.bits);
        }
        self.map_internal(mem, virt, entry, final_level);
        proof {
            assert forall|v: u64|
                v & !level_offset_mask(l) == virt & !level_offset_mask(
                    l,
                ) implies #[trigger] self.translate(mem, v) == Some(
                PhysAddr(((v & level_offset_mask(l)) + (phys.0 & ADDR_MASK)) as u64),
            ) by {
                self.lemma_leaf_translates(mem, virt, l, entry.entry, v);
            }
        }
    }
}

impl PageTable {
    /// Maps the 4 KiB page that holds `virt` to `phys`.
    pub fn map_4k(&mut self, mem: &mut TableMemory, phys: PhysAddr, virt: u64, perm: PagePermission)
        requires
            old(self).wf(old(mem)),
            phys.0 % PAGE_SIZE == 0,
            old(mem).free_frames() >= old(self).tables_needed(old(mem), virt, 3),
        ensures
            final(self).wf(final(mem)),
            final(self)@.len() == 512,
            final(self).maps_leaf(final(mem), virt, 3, leaf_descriptor(phys.0, FLAG_TABLE, perm.bits)),
            forall|v: u64|
                v & !0xfffu64 == virt & !0xfffu64 ==> #[trigger] final(self).translate(final(mem), v)
                    == Some(PhysAddr(((v & 0xfff) + (phys.0 & ADDR_MASK)) as u64)),
            final(mem).base() == old(mem).base(),
            final(mem).capacity() == old(mem).capacity(),
            final(mem).free_frames() == old(mem).free_frames() - old(self).tables_needed(old(mem), virt, 3),
            forall|v: u64|
                !same_indices(v, virt, 3) && !old(self).covered_by_block(old(mem), virt, v, 3)
                    ==> #[trigger] final(self).translate(final(mem), v) == old(self).translate(
                    old(mem),
                    v,
                ),
            final(self).only_path_changed(final(mem), old(self), old(mem), virt, 3),
    {
        proof {
            let x = phys.0;
            assert(x % 4096 == 0 ==> x & 0xfff == 0) by (bit_vector);
        }
        self.map_leaf(mem, phys, virt, perm, 3);
    }

    /// Maps the 2 MiB block at `virt` to `phys`; both must be aligned to
    /// 2 MiB.
    pub fn map_2mb(&mut self, mem: &mut TableMemory, phys: PhysAddr, virt: u64, perm: PagePermission)
        requires
            old(self).wf(old(mem)),
            phys.0 & 0x1f_ffff == 0,
            virt & 0x1f_ffff == 0,
            old(mem).free_frames() >= old(self).tables_needed(old(mem), virt, 2),
        ensures
            final(self).wf(final(mem)),
            final(self)@.len() == 512,
            final(self).maps_leaf(final(mem), virt, 2, leaf_descriptor(phys.0, 0, perm.bits)),
            forall|v: u64|
                v & !0x1f_ffffu64 == virt ==> #[trigger] final(self).translate(final(mem), v) == Some(
                    PhysAddr(((v & 0x1f_ffff) + (phys.0 & ADDR_MASK)) as u64),
                ),
            final(mem).base() == old(mem).base(),
            final(mem).capacity() == old(mem).capacity(),
            final(mem).free_frames() == old(mem).free_frames() - old(self).tables_needed(old(mem), virt, 2),
            forall|v: u64|
                !same_indices(v, virt, 2) && !old(self).covered_by_block(old(mem), virt, v, 2)
                    ==> #[trigger] final(self).translate(final(mem), v) == old(self).translate(
                    old(mem),
                    v,
                ),
            final(self).only_path_changed(final(mem), old(self), old(mem), virt, 2),
    {
        proof {
            assert(virt & 0x1f_ffff == 0 ==> virt & !0x1f_ffffu64 == virt) by (bit_vector);
        }
        self.map_leaf(mem, phys, virt, perm, 2);
    }

    /// Maps the 1 GiB block at `virt` to `phys`; both must be aligned to
    /// 1 GiB.
    pub fn map_1gb(&mut self, mem: &mut TableMemory, phys: PhysAddr, virt: u64, perm: PagePermission)
        requires
            old(self).wf(old(mem)),
            phys.0 & 0x3fff_ffff == 0,
            virt & 0x3fff_ffff == 0,
            old(mem).free_frames() >= old(self).tables_needed(old(mem), virt, 1),
        ensures
            final(self).wf(final(mem)),
            final(self)@.len() == 512,
            final(self).maps_leaf(final(mem), virt, 1, leaf_descriptor(phys.0, 0, perm.bits)),
            forall|v: u64|
                v & !0x3fff_ffffu64 == virt ==> #[trigger] final(self).translate(final(mem), v)
                    == Some(PhysAddr(((v & 0x3fff_ffff) + (phys.0 & ADDR_MASK)) as u64)),
            final(mem).base() == old(mem).base(),
            final(mem).capacity() == old(mem).capacity(),
            final(mem).free_frames() == old(mem).free_frames() - old(self).tables_needed(old(mem), virt, 1),
            forall|v: u64|
                !same_indices(v, virt, 1) && !old(self).covered_by_block(old(mem), virt, v, 1)
                    ==> #[trigger] final(self).translate(final(mem), v) == old(self).translate(
                    old(mem),
                    v,
                ),
            final(self).only_path_changed(final(mem), old(self), old(mem), virt, 1),
    {
        proof {
            assert(virt & 0x3fff_ffff == 0 ==> virt & !0x3fff_ffffu64 == virt) by (bit_vector);
        }
        self.map_leaf(mem, phys, virt, perm, 1);
    }

    /// Walks the tables for `virt`, from the root down.
    fn walk_internal(&self, mem: &TableMemory, virt: u64) -> (r: Option<PhysAddr>)
        requires
            self.wf(mem),
        ensures
            r == self.translate(mem, virt),
    {
        let mut level: usize = 0;
        let mut cur: usize = 0;
        loop
            invariant
                self.wf(mem),
                level <= 3,
                level > 0 ==> cur < mem.frames() && mem.level_of(cur as int) == level,
                self.translate(mem, virt) == mem.walk(
                    if level == 0 {
                        self@
                    } else {
                        mem.table(cur as int)
                    },
                    virt,
                    level as nat,
                ),
            decreases 3 - level,
        {
            let idx = index_of(virt, level);
            let entry = if level == 0 {
                self.entries[idx]
            } else {
                assert(mem.table(cur as int).len() == 512);
                mem.tables[cur].entries[idx]
            };
            proof {
                if level > 0 {
                    assert(mem.table(cur as int)[idx as int] == entry);
                }
                lemma_flags_low_bits(entry.entry);
                lemma_valid_nonzero(entry.entry);
                lemma_leaf_sum(virt, entry.entry, level as nat);
            }
            let flags = entry.flags();
            if flags.bits & FLAG_VALID == FLAG_VALID {
                if flags.bits & FLAG_TABLE == FLAG_TABLE {
                    if level < 3 {
                        cur = mem.frame_index(entry.addr());
                        level = level + 1;
                    } else {
                        let page_mask = offset_mask_of(level);
                        return Some(PhysAddr((virt & page_mask) + entry.addr().0));
                    }
                } else {
                    if level < 3 {
                        let block_mask = offset_mask_of(level);
                        return Some(PhysAddr((virt & block_mask) + entry.addr().0));
                    } else {
                        // a block descriptor at level 3 cannot occur in a
                        // well-formed tree
                        return None;
                    }
                }
            } else {
                return None;
            }
        }
    }

    /// The physical address that `virt` translates to, if it is mapped.
    pub fn virt_to_phys(&self, mem: &TableMemory, virt: u64) -> (r: Option<PhysAddr>)
        requires
            self.wf(mem),
        ensures
            r == self.translate(mem, virt),
    {
        self.walk_internal(mem, virt)
    }
}

/// Mapping round trip: once the entry for the block or page of `level` at an
/// aligned `virt` maps an aligned `phys` (below 2^52, the reach of a
/// descriptor), `virt + d` translates to `phys + d` for every offset `d`
/// inside the block.
pub proof fn lemma_map_round_trip(
    table: &PageTable,
    mem: &TableMemory,
    phys: PhysAddr,
    virt: u64,
    perm: PagePermission,
    level: nat,
    d: u64,
)
    requires
        table.wf(mem),
        1 <= level <= 3,
        phys.0 & level_offset_mask(level) == 0,
        virt & level_offset_mask(level) == 0,
        phys.0 < 0x10_0000_0000_0000,
        table.maps_leaf(mem, virt, level, leaf_descriptor(phys.0, leaf_kind(level), perm.bits)),
        d < level_size(level),
    ensures
        table.translate(mem, (virt + d) as u64) == Some(PhysAddr((phys.0 + d) as u64)),
{
    lemma_block_offset(virt, d, level);
    lemma_aligned_addr(phys.0, d, level);
    lemma_leaf_descriptor(phys.0, leaf_kind(level), perm.bits);
    table.lemma_leaf_translates(
        mem,
        virt,
        level,
        leaf_descriptor(phys.0, leaf_kind(level), perm.bits),
        (virt + d) as u64,
    );
}

/// Descriptor structure: in an address space that the `map_*` functions
/// built, every entry of the root and of every table is zero or valid, and a
/// valid entry of a level-3 table is a page, never a block.
pub proof fn lemma_entries_legal(table: &PageTable, mem: &TableMemory)
    requires
        table.wf(mem),
    ensures
        forall|i: int| 0 <= i < 512 ==> #[trigger] table@[i].entry == 0 || entry_valid(table@[i].entry),
        forall|k: int, i: int|
            0 <= k < mem.frames() && 0 <= i < 512 ==> #[trigger] mem.table(k)[i].entry == 0
                || entry_valid(mem.table(k)[i].entry),
        forall|k: int, i: int|
            0 <= k < mem.frames() && 0 <= i < 512 && mem.level_of(k) == 3 && #[trigger] mem.table(
                k,
            )[i].entry != 0 ==> entry_table_bit(mem.table(k)[i].entry),
{
    assert forall|i: int| 0 <= i < 512 implies #[trigger] table@[i].entry == 0 || entry_valid(table@[i].entry) by {
        assert(mem.entry_ok(table@[i].entry, 0));
    }
}

} // verus!
