//! Read-only FAT32 volume reader over a sector-addressed block device.
use vstd::prelude::*;

verus! {

/// Size in bytes of a device sector.
pub const SECTOR_SIZE: usize = 512;

/// FAT entry values at or above this mark the end of a cluster chain.
pub const END_OF_CHAIN: u32 = 0x0FFF_FFF8;

/// Most clusters a chain walk visits. FAT entries hold 28 significant bits,
/// so a chain that visits more clusters than that has come back to one it
/// visited before and would never end.
pub const MAX_CHAIN: u32 = 0x1000_0000;

/// Size in bytes of a directory record.
pub const DIR_RECORD_SIZE: usize = 32;

/// Storage addressed in sectors of `SECTOR_SIZE` bytes.
pub trait BlockDevice {
    /// What sector `lba` holds.
    spec fn sector(&self, lba: u32) -> Seq<u8>;

    /// Number of sectors that a write can change.
    spec fn sector_count(&self) -> nat;

    /// Reads sector `lba` into `buf`; reading changes no sector.
    fn read_sector(&mut self, lba: u32, buf: &mut [u8; 512])
        ensures
            final(buf)@ == old(self).sector(lba),
            forall|l: u32| #[trigger] final(self).sector(l) == old(self).sector(l),
            final(self).sector_count() == old(self).sector_count(),
    ;

    /// Writes `buf` to sector `lba`, which must lie on the device to take
    /// effect; no other sector changes.
    fn write_sector(&mut self, lba: u32, buf: &[u8; 512])
        ensures
            (lba as nat) < old(self).sector_count() ==> final(self).sector(lba) == buf@,
            forall|l: u32| l != lba ==> #[trigger] final(self).sector(l) == old(self).sector(l),
            final(self).sector_count() == old(self).sector_count(),
    ;
}

/// The sectors of a device, as a function from address to contents.
pub open spec fn sectors_of<D: BlockDevice>(d: &D) -> spec_fn(u32) -> Seq<u8> {
    |l: u32| d.sector(l)
}

/// Little-endian 16-bit value at byte `i` of `b`.
pub open spec fn le16(b: Seq<u8>, i: int) -> int {
    b[i] as int + b[i + 1] as int * 256
}

/// Little-endian 32-bit value at byte `i` of `b`.
pub open spec fn le32(b: Seq<u8>, i: int) -> int {
    le16(b, i) + le16(b, i + 2) * 65536
}

/// Reads the little-endian 16-bit value at byte `i` of `b`.
pub fn read_le16(b: &[u8], i: usize) -> (r: u16)
    requires
        i + 1 < b@.len(),
    ensures
        r == le16(b@, i as int),
{
    b[i] as u16 + b[i + 1] as u16 * 256
}

/// Reads the little-endian 32-bit value at byte `i` of `b`.
pub fn read_le32(b: &[u8], i: usize) -> (r: u32)
    requires
        i + 3 < b@.len() <= usize::MAX,
    ensures
        r == le32(b@, i as int),
{
    read_le16(b, i) as u32 + read_le16(b, i + 2) as u32 * 65536
}

/// Why a volume operation failed.
#[derive(Debug, Clone, Copy, PartialEq, Eq, Structural)]
pub enum FsError {
    /// A cluster chain referenced a reserved cluster, one beyond the
    /// addressable sectors, or never ended.
    InvalidCluster,
    /// The boot sector declares a sector size other than the device's.
    MalformedBootSector,
}

/// The geometry fields of a FAT32 boot sector (BIOS Parameter Block).
#[derive(Debug, Clone, Copy)]
pub struct BootSector {
    pub bytes_per_sector: u16,
    pub sectors_per_cluster: u8,
    pub reserved_sectors: u16,
    pub fats: u8,
    pub sectors_per_fat: u32,
    pub root_cluster: u32,
}

/// The boot sector that the bytes of sector 0 describe.
pub open spec fn boot_sector_of(b: Seq<u8>) -> BootSector {
    BootSector {
        bytes_per_sector: le16(b, 11) as u16,
        sectors_per_cluster: b[13],
        reserved_sectors: le16(b, 14) as u16,
        fats: b[16],
        sectors_per_fat: le32(b, 36) as u32,
        root_cluster: le32(b, 44) as u32,
    }
}

impl BootSector {
    /// Decodes the boot sector fields from sector 0. Any bytes are accepted.
    pub fn parse(buf: &[u8; 512]) -> (r: Self)
        ensures
            r == boot_sector_of(buf@),
    {
        let b = buf.as_slice();
        BootSector {
            bytes_per_sector: read_le16(b, 11),
            sectors_per_cluster: b[13],
            reserved_sectors: read_le16(b, 14),
            fats: b[16],
            sectors_per_fat: read_le32(b, 36),
            root_cluster: read_le32(b, 44),
        }
    }
}

/// Bytes in one cluster.
pub open spec fn cluster_bytes(bs: BootSector) -> int {
    bs.bytes_per_sector * bs.sectors_per_cluster
}

/// First sector of the data region, right after the reserved sectors and
/// the FATs.
pub open spec fn data_start(bs: BootSector) -> int {
    bs.reserved_sectors + bs.fats * bs.sectors_per_fat
}

/// First sector of cluster `c`; clusters are numbered from 2.
pub open spec fn cluster_lba(bs: BootSector, c: int) -> int {
    data_start(bs) + (c - 2) * bs.sectors_per_cluster
}

/// Cluster `c` is a data cluster whose sectors all have a 32-bit address.
pub open spec fn cluster_addressable(bs: BootSector, c: int) -> bool {
    c >= 2 && cluster_lba(bs, c) + bs.sectors_per_cluster <= 0x1_0000_0000
}

/// The FAT entry of cluster `c`, with its top 4 reserved bits cleared.
pub open spec fn fat_entry(disk: spec_fn(u32) -> Seq<u8>, bs: BootSector, c: int) -> int {
    let offset = c * 4;
    le32(disk((bs.reserved_sectors + offset / 512) as u32), offset % 512) % 0x1000_0000
}

/// The `n` sectors from `lba` on, in order.
pub open spec fn sectors_from(disk: spec_fn(u32) -> Seq<u8>, lba: int, n: nat) -> Seq<u8>
    decreases n,
{
    if n == 0 {
        Seq::empty()
    } else {
        sectors_from(disk, lba, (n - 1) as nat) + disk((lba + n - 1) as u32)
    }
}

/// The bytes of cluster `c`.
pub open spec fn cluster_data(disk: spec_fn(u32) -> Seq<u8>, bs: BootSector, c: int) -> Seq<u8> {
    sectors_from(disk, cluster_lba(bs, c), bs.sectors_per_cluster as nat)
}

/// `data` followed by what `r` holds, or the error of `r`.
pub open spec fn prepend(data: Seq<u8>, r: Result<Seq<u8>, FsError>) -> Result<Seq<u8>, FsError> {
    match r {
        Ok(rest) => Ok(data + rest),
        Err(e) => Err(e),
    }
}

/// The contents of the chain from cluster `c` on, visiting at most `fuel`
/// clusters: each cluster's bytes, then those of the cluster its FAT entry
/// names, until an entry at or above `END_OF_CHAIN`.
pub open spec fn chain_from(
    disk: spec_fn(u32) -> Seq<u8>,
    bs: BootSector,
    c: int,
    fuel: nat,
) -> Result<Seq<u8>, FsError>
    decreases fuel,
{
    if !cluster_addressable(bs, c) || fuel == 0 {
        Err(FsError::InvalidCluster)
    } else if fat_entry(disk, bs, c) >= END_OF_CHAIN {
        Ok(cluster_data(disk, bs, c))
    } else {
        prepend(
            cluster_data(disk, bs, c),
            chain_from(disk, bs, fat_entry(disk, bs, c), (fuel - 1) as nat),
        )
    }
}

/// The contents of the cluster chain that starts at `start`.
pub open spec fn read_chain(disk: spec_fn(u32) -> Seq<u8>, bs: BootSector, start: int) -> Result<
    Seq<u8>,
    FsError,
> {
    if start < 2 {
        Err(FsError::InvalidCluster)
    } else if bs.bytes_per_sector != SECTOR_SIZE {
        Err(FsError::MalformedBootSector)
    } else {
        chain_from(disk, bs, start, MAX_CHAIN as nat)
    }
}

/// A decoded 32-byte directory record.
#[derive(Debug, Clone, Copy)]
pub struct DirectoryEntry {
    /// 8.3 name: 8 bytes of base name, then 3 of extension, space-padded.
    pub name: [u8; 11],
    pub attr: u8,
    pub first_cluster: u32,
    pub size: u32,
}

/// `e` is what directory record `rec` describes.
pub open spec fn decodes_to(rec: Seq<u8>, e: DirectoryEntry) -> bool {
    &&& e.name@ == rec.take(11)
    &&& e.attr == rec[11]
    &&& e.first_cluster == le16(rec, 20) * 65536 + le16(rec, 26)
    &&& e.size == le32(rec, 28)
}

/// The records of a directory that name files, in on-disk order: the scan
/// stops at the first record whose first byte is 0x00 and skips those whose
/// first byte is 0xE5 (deleted).
pub open spec fn live_records(data: Seq<u8>) -> Seq<Seq<u8>>
    decreases data.len(),
{
    if data.len() < DIR_RECORD_SIZE || data[0] == 0x00 {
        Seq::empty()
    } else if data[0] == 0xE5 {
        live_records(data.skip(DIR_RECORD_SIZE as int))
    } else {
        seq![data.take(DIR_RECORD_SIZE as int)] + live_records(data.skip(DIR_RECORD_SIZE as int))
    }
}

/// `entries` are the decoded `records`, one for one.
pub open spec fn decode_all(records: Seq<Seq<u8>>, entries: Seq<DirectoryEntry>) -> bool {
    &&& entries.len() == records.len()
    &&& forall|i: int| 0 <= i < records.len() ==> decodes_to(#[trigger] records[i], entries[i])
}

/// Decodes the directory record at byte `p` of `d`.
pub fn decode_entry(d: &[u8], p: usize) -> (e: DirectoryEntry)
    requires
        p + DIR_RECORD_SIZE <= d@.len() <= usize::MAX,
    ensures
        decodes_to(d@.subrange(p as int, p + DIR_RECORD_SIZE), e),
{
    let name: [u8; 11] = [
        d[p],
        d[p + 1],
        d[p + 2],
        d[p + 3],
        d[p + 4],
        d[p + 5],
        d[p + 6],
        d[p + 7],
        d[p + 8],
        d[p + 9],
        d[p + 10],
    ];
    let hi = read_le16(d, p + 20) as u32;
    let lo = read_le16(d, p + 26) as u32;
    let e = DirectoryEntry {
        name,
        attr: d[p + 11],
        first_cluster: hi * 65536 + lo,
        size: read_le32(d, p + 28),
    };
    assert(e.name@ =~= d@.subrange(p as int, p + DIR_RECORD_SIZE).take(11));
    e
}

/// Bytes that trailing-whitespace trimming removes: space, tab, line feed,
/// vertical tab, form feed and carriage return.
pub open spec fn is_blank(b: u8) -> bool {
    b == 0x20 || (0x09 <= b && b <= 0x0D)
}

/// `s` without its trailing blanks.
pub open spec fn trim_end(s: Seq<u8>) -> Seq<u8>
    decreases s.len(),
{
    if s.len() > 0 && is_blank(s.last()) {
        trim_end(s.drop_last())
    } else {
        s
    }
}

/// The file name that an 11-byte 8.3 name field spells: the base name and
/// the extension, each without trailing padding, joined by a dot unless the
/// extension is empty.
pub open spec fn display_name(raw: Seq<u8>) -> Seq<u8> {
    let base = trim_end(raw.take(8));
    let ext = trim_end(raw.subrange(8, 11));
    if ext.len() == 0 {
        base
    } else {
        base + seq![0x2Eu8] + ext
    }
}

/// Every byte of `b` is ASCII.
pub open spec fn is_ascii_bytes(b: Seq<u8>) -> bool {
    forall|i: int| 0 <= i < b.len() ==> #[trigger] b[i] < 0x80
}

/// The characters that ASCII bytes `b` encode.
pub open spec fn ascii_chars(b: Seq<u8>) -> Seq<char> {
    b.map_values(|x: u8| x as char)
}

proof fn lemma_trim_end_prefix(s: Seq<u8>)
    ensures
        trim_end(s).len() <= s.len(),
        trim_end(s) == s.take(trim_end(s).len() as int),
    decreases s.len(),
{
    if s.len() > 0 && is_blank(s.last()) {
        lemma_trim_end_prefix(s.drop_last());
        assert(s.drop_last().take(trim_end(s).len() as int) =~= s.take(trim_end(s).len() as int));
    } else {
        assert(s.take(s.len() as int) =~= s);
    }
}

/// Relies on `String::from_utf8_lossy`: bytes that are valid UTF-8, as
/// ASCII bytes always are, come back as that text, one char per byte.
#[verifier::external_body]
fn ascii_to_string(b: &[u8]) -> (r: String)
    ensures
        is_ascii_bytes(b@) ==> r@ == ascii_chars(b@),
{
    String::from_utf8_lossy(b).into_owned()
}

/// Appends `b[from..to]` without its trailing blanks to `out`.
fn push_trimmed(out: &mut Vec<u8>, b: &[u8], from: usize, to: usize)
    requires
        from <= to <= b@.len(),
    ensures
        final(out)@ == old(out)@ + trim_end(b@.subrange(from as int, to as int)),
{
    let mut end = to;
    while end > from && is_blank_byte(b[end - 1])
        invariant
            from <= end <= to <= b@.len(),
            trim_end(b@.subrange(from as int, to as int)) == trim_end(
                b@.subrange(from as int, end as int),
            ),
        decreases end - from,
    {
        assert(b@.subrange(from as int, end as int).drop_last() =~= b@.subrange(
            from as int,
            end - 1,
        ));
        end = end - 1;
    }
    let ghost start = out@;
    let mut i = from;
    while i < end
        invariant
            from <= i <= end <= b@.len(),
            out@ == start + b@.subrange(from as int, i as int),
        decreases end - i,
    {
        out.push(b[i]);
        i = i + 1;
        assert(out@ =~= start + b@.subrange(from as int, i as int));
    }
}

/// Whether byte `b` is trailing padding.
pub fn is_blank_byte(b: u8) -> (r: bool)
    ensures
        r == is_blank(b),
{
    b == 0x20 || (0x09 <= b && b <= 0x0D)
}

impl DirectoryEntry {
    /// The bytes of the file name, as `filename` spells it.
    pub fn filename_bytes(&self) -> (r: Vec<u8>)
        ensures
            r@ == display_name(self.name@),
    {
        let raw = self.name.as_slice();
        let mut base: Vec<u8> = Vec::new();
        push_trimmed(&mut base, raw, 0, 8);
        let mut ext: Vec<u8> = Vec::new();
        push_trimmed(&mut ext, raw, 8, 11);
        assert(raw@.subrange(0, 8) =~= raw@.take(8));
        assert(base@ =~= trim_end(raw@.take(8)));
        assert(ext@ =~= trim_end(raw@.subrange(8, 11)));
        if ext.len() == 0 {
            return base;
        }
        base.push(0x2E);
        let ghost with_dot = base@;
        let mut i: usize = 0;
        while i < ext.len()
            invariant
                i <= ext@.len(),
                base@ == with_dot + ext@.take(i as int),
            decreases ext@.len() - i,
        {
            base.push(ext[i]);
            i = i + 1;
            assert(base@ =~= with_dot + ext@.take(i as int));
        }
        assert(ext@.take(ext@.len() as int) =~= ext@);
        base
    }

    /// The file name: base name and extension without padding, joined by a
    /// dot unless the extension is empty (`"HELLO   TXT"` is `HELLO.TXT`).
    pub fn filename(&self) -> (r: String)
        ensures
            is_ascii_bytes(self.name@) ==> r@ == ascii_chars(display_name(self.name@)),
    {
        let bytes = self.filename_bytes();
        proof {
            let raw = self.name@;
            if is_ascii_bytes(raw) {
                lemma_trim_end_prefix(raw.take(8));
                lemma_trim_end_prefix(raw.subrange(8, 11));
                let base = trim_end(raw.take(8));
                let ext = trim_end(raw.subrange(8, 11));
                assert forall|i: int| 0 <= i < bytes@.len() implies #[trigger] bytes@[i] < 0x80 by {
                    if i < base.len() {
                        assert(base[i] == raw.take(8)[i]);
                    } else if i > base.len() {
                        assert(bytes@[i] == ext[i - base.len() - 1]);
                        assert(ext[i - base.len() - 1] == raw.subrange(8, 11)[i - base.len() - 1]);
                    }
                }
            }
        }
        ascii_to_string(bytes.as_slice())
    }
}

/// Every FAT entry value from `END_OF_CHAIN` up ends a chain, `0x0FFFFFF8`
/// and `0x0FFFFFFF` alike: the chain from such a cluster is that cluster's
/// bytes alone, whichever of the values its entry holds.
pub proof fn lemma_end_of_chain(
    disk: spec_fn(u32) -> Seq<u8>,
    bs: BootSector,
    c: int,
    fuel: nat,
)
    requires
        cluster_addressable(bs, c),
        fuel > 0,
        END_OF_CHAIN <= fat_entry(disk, bs, c),
    ensures
        fat_entry(disk, bs, c) <= 0x0FFF_FFFF,
        chain_from(disk, bs, c, fuel) == Ok::<Seq<u8>, FsError>(cluster_data(disk, bs, c)),
{
}

/// One directory record `rec` ahead of `tail`: a record starting with 0x00
/// ends the scan, one starting with 0xE5 is skipped without a trace, and any
/// other is listed first, ahead of what `tail` lists.
pub proof fn lemma_scan_record(rec: Seq<u8>, tail: Seq<u8>)
    requires
        rec.len() == DIR_RECORD_SIZE,
    ensures
        rec[0] == 0x00 ==> live_records(rec + tail) == Seq::<Seq<u8>>::empty(),
        rec[0] == 0xE5 ==> live_records(rec + tail) == live_records(tail),
        rec[0] != 0x00 && rec[0] != 0xE5 ==> live_records(rec + tail) == seq![rec]
            + live_records(tail),
{
    let d = rec + tail;
    assert(d.skip(DIR_RECORD_SIZE as int) =~= tail);
    assert(d.take(DIR_RECORD_SIZE as int) =~= rec);
    assert(d[0] == rec[0]);
}

/// Nothing after a record that starts with 0x00 is listed: whole records
/// `pre` followed by such a record, or by nothing, list what `pre` alone lists.
pub proof fn lemma_scan_stops(pre: Seq<u8>, rest: Seq<u8>)
    requires
        pre.len() % (DIR_RECORD_SIZE as nat) == 0,
        rest.len() == 0 || rest[0] == 0x00,
    ensures
        live_records(pre + rest) == live_records(pre),
    decreases pre.len(),
{
    if pre.len() == 0 {
        assert(pre + rest =~= rest);
    } else {
        let d = pre + rest;
        assert(d[0] == pre[0]);
        assert(d.take(DIR_RECORD_SIZE as int) =~= pre.take(DIR_RECORD_SIZE as int));
        assert(d.skip(DIR_RECORD_SIZE as int) =~= pre.skip(DIR_RECORD_SIZE as int) + rest);
        lemma_scan_stops(pre.skip(DIR_RECORD_SIZE as int), rest);
    }
}

/// A FAT32 volume mounted on a block device.
pub struct Fat32<D: BlockDevice> {
    device: D,
    boot_sector: BootSector,
}

impl<D: BlockDevice> Fat32<D> {
    /// The sectors of the device.
    pub closed spec fn disk(&self) -> spec_fn(u32) -> Seq<u8> {
        sectors_of(&self.device)
    }

    /// The boot sector read at mount time.
    pub closed spec fn bs(&self) -> BootSector {
        self.boot_sector
    }

    /// Mounts the volume on `device` by decoding its sector 0. Always
    /// succeeds: the boot sector is not validated.
    pub fn new(device: D) -> (r: Result<Self, FsError>)
        ensures
            r is Ok,
            r matches Ok(fs) ==> fs.bs() == boot_sector_of(device.sector(0)) && fs.disk()
                == sectors_of(&device),
    {
        let mut device = device;
        let ghost d0 = sectors_of(&device);
        let mut buf = [0u8; 512];
        device.read_sector(0, &mut buf);
        let boot_sector = BootSector::parse(&buf);
        let fs = Fat32 { device, boot_sector };
        assert(fs.disk() =~= d0);
        Ok(fs)
    }

    /// The boot sector read at mount time.
    pub fn boot_sector(&self) -> (r: &BootSector)
        ensures
            *r == self.bs(),
    {
        &self.boot_sector
    }

    /// Bytes per cluster: bytes per sector times sectors per cluster.
    pub fn cluster_size(&self) -> (r: usize)
        ensures
            r == cluster_bytes(self.bs()),
    {
        let bps = self.boot_sector.bytes_per_sector as usize;
        let spc = self.boot_sector.sectors_per_cluster as usize;
        assert(bps * spc <= 0xFFFF * 255) by (nonlinear_arith)
            requires
                bps <= 0xFFFF,
                spc <= 255,
        ;
        bps * spc
    }

    /// First sector of the data region.
    pub fn first_data_sector(&self) -> (r: u64)
        ensures
            r == data_start(self.bs()),
            r <= 0xFFFF + 255 * 0xFFFF_FFFF,
    {
        let bs = &self.boot_sector;
        assert(bs.fats * bs.sectors_per_fat <= 255 * 0xFFFF_FFFF) by (nonlinear_arith)
            requires
                bs.fats <= 255,
                bs.sectors_per_fat <= 0xFFFF_FFFF,
        ;
        bs.reserved_sectors as u64 + bs.fats as u64 * bs.sectors_per_fat as u64
    }

    /// First sector of data cluster `cluster`.
    pub fn cluster_to_lba(&self, cluster: u32) -> (r: u64)
        requires
            cluster >= 2,
        ensures
            r == cluster_lba(self.bs(), cluster as int),
            r <= 0xFFFF + 2 * 255 * 0xFFFF_FFFF,
    {
        let first = self.first_data_sector();
        let spc = self.boot_sector.sectors_per_cluster as u64;
        assert((cluster - 2) * spc <= 0xFFFF_FFFF * 255) by (nonlinear_arith)
            requires
                cluster <= 0xFFFF_FFFF,
                spc <= 255,
                cluster >= 2,
        ;
        first + (cluster as u64 - 2) * spc
    }

    /// Whether `cluster` is a data cluster whose sectors all have a 32-bit
    /// address.
    pub fn cluster_is_addressable(&self, cluster: u32) -> (r: bool)
        ensures
            r == cluster_addressable(self.bs(), cluster as int),
    {
        if cluster < 2 {
            false
        } else {
            self.cluster_to_lba(cluster) + self.boot_sector.sectors_per_cluster as u64
                <= 0x1_0000_0000
        }
    }

    /// Reads the FAT entry of `cluster` and clears its reserved top 4 bits.
    pub fn read_fat_entry(&mut self, cluster: u32) -> (r: u32)
        requires
            old(self).bs().bytes_per_sector == SECTOR_SIZE,
        ensures
            r == fat_entry(old(self).disk(), old(self).bs(), cluster as int),
            final(self).disk() == old(self).disk(),
            final(self).bs() == old(self).bs(),
    {
        let ghost d0 = self.disk();
        let offset = cluster as u64 * 4;
        let sector = (self.boot_sector.reserved_sectors as u64 + offset / 512) as u32;
        let idx = (offset % 512) as usize;
        let mut buf = [0u8; 512];
        self.device.read_sector(sector, &mut buf);
        assert(self.disk() =~= d0);
        let entry = read_le32(buf.as_slice(), idx);
        assert(entry & 0x0FFF_FFFF == entry % 0x1000_0000) by (bit_vector);
        entry & 0x0FFF_FFFF
    }

    /// Appends the bytes of data cluster `cluster` to `buf`.
    pub fn read_cluster(&mut self, cluster: u32, buf: &mut Vec<u8>)
        requires
            cluster_addressable(old(self).bs(), cluster as int),
        ensures
            final(buf)@ == old(buf)@ + cluster_data(old(self).disk(), old(self).bs(), cluster as int),
            final(self).disk() == old(self).disk(),
            final(self).bs() == old(self).bs(),
    {
        let ghost d0 = self.disk();
        let ghost start = buf@;
        let lba = self.cluster_to_lba(cluster);
        let n = self.boot_sector.sectors_per_cluster;
        let mut k: u8 = 0;
        while k < n
            invariant
                k <= n,
                n == self.bs().sectors_per_cluster,
                lba == cluster_lba(self.bs(), cluster as int),
                lba + n <= 0x1_0000_0000,
                self.disk() == d0,
                self.bs() == old(self).bs(),
                buf@ == start + sectors_from(d0, lba as int, k as nat),
            decreases n - k,
        {
            let mut tmp = [0u8; 512];
            self.device.read_sector((lba + k as u64) as u32, &mut tmp);
            assert(self.disk() =~= d0);
            let ghost before = buf@;
            let mut j: usize = 0;
            while j < SECTOR_SIZE
                invariant
                    j <= SECTOR_SIZE,
                    tmp@.len() == SECTOR_SIZE,
                    buf@ == before + tmp@.take(j as int),
                decreases SECTOR_SIZE - j,
            {
                buf.push(tmp[j]);
                j = j + 1;
                assert(buf@ =~= before + tmp@.take(j as int));
            }
            assert(tmp@.take(512) =~= tmp@);
            assert(tmp@ == d0((lba + k) as u32));
            k = k + 1;
            assert(buf@ =~= start + sectors_from(d0, lba as int, k as nat));
        }
    }

    /// Reads the cluster chain that starts at `start`: the bytes of each
    /// cluster in chain order, up to and including the cluster whose FAT
    /// entry marks the end of the chain.
    pub fn read_cluster_chain(&mut self, start: u32) -> (r: Result<Vec<u8>, FsError>)
        ensures
            final(self).disk() == old(self).disk(),
            final(self).bs() == old(self).bs(),
            match read_chain(old(self).disk(), old(self).bs(), start as int) {
                Ok(data) => r matches Ok(v) && v@ == data,
                Err(e) => r == Err::<Vec<u8>, FsError>(e),
            },
    {
        if start < 2 {
            return Err(FsError::InvalidCluster);
        }
        if self.boot_sector.bytes_per_sector as usize != SECTOR_SIZE {
            return Err(FsError::MalformedBootSector);
        }
        let ghost disk = self.disk();
        let ghost bs = self.bs();
        let mut data: Vec<u8> = Vec::new();
        let mut current = start;
        let mut fuel: u32 = MAX_CHAIN;
        assert(Seq::<u8>::empty() + chain_from(disk, bs, start as int, fuel as nat)->Ok_0
            =~= chain_from(disk, bs, start as int, fuel as nat)->Ok_0);
        loop
            invariant
                self.disk() == disk,
                self.bs() == bs,
                disk == old(self).disk(),
                bs == old(self).bs(),
                bs.bytes_per_sector == SECTOR_SIZE,
                read_chain(disk, bs, start as int) == prepend(
                    data@,
                    chain_from(disk, bs, current as int, fuel as nat),
                ),
            decreases fuel,
        {
            if !self.cluster_is_addressable(current) || fuel == 0 {
                return Err(FsError::InvalidCluster);
            }
            let ghost before = data@;
            let ghost cd = cluster_data(disk, bs, current as int);
            self.read_cluster(current, &mut data);
            let next = self.read_fat_entry(current);
            if next >= END_OF_CHAIN {
                return Ok(data);
            }
            proof {
                let rest = chain_from(disk, bs, next as int, (fuel - 1) as nat);
                if rest is Ok {
                    assert(before + (cd + rest->Ok_0) =~= (before + cd) + rest->Ok_0);
                }
            }
            current = next;
            fuel = fuel - 1;
        }
    }

    /// Lists the root directory: one entry per record that names a file, in
    /// on-disk order.
    pub fn read_root_directory(&mut self) -> (r: Result<Vec<DirectoryEntry>, FsError>)
        ensures
            final(self).disk() == old(self).disk(),
            final(self).bs() == old(self).bs(),
            match read_chain(old(self).disk(), old(self).bs(), old(self).bs().root_cluster as int) {
                Ok(data) => r matches Ok(v) && decode_all(live_records(data), v@),
                Err(e) => r == Err::<Vec<DirectoryEntry>, FsError>(e),
            },
    {
        let data = match self.read_cluster_chain(self.boot_sector.root_cluster) {
            Ok(d) => d,
            Err(e) => return Err(e),
        };
        let ghost all = live_records(data@);
        let ghost mut seen: Seq<Seq<u8>> = Seq::empty();
        let mut entries: Vec<DirectoryEntry> = Vec::new();
        let mut pos: usize = 0;
        assert(data@.skip(0) =~= data@);
        assert(seen + live_records(data@.skip(0)) =~= all);
        while data.len() - pos >= DIR_RECORD_SIZE
            invariant
                pos <= data@.len(),
                all == live_records(data@),
                all == seen + live_records(data@.skip(pos as int)),
                decode_all(seen, entries@),
                self.disk() == old(self).disk(),
                self.bs() == old(self).bs(),
                read_chain(old(self).disk(), old(self).bs(), old(self).bs().root_cluster as int)
                    == Ok::<Seq<u8>, FsError>(data@),
            decreases data@.len() - pos,
        {
            let ghost rest = data@.skip(pos as int);
            assert(rest[0] == data@[pos as int]);
            assert(rest.skip(DIR_RECORD_SIZE as int) =~= data@.skip(pos + DIR_RECORD_SIZE));
            if data[pos] == 0x00 {
                assert(seen + live_records(rest) =~= seen);
                return Ok(entries);
            }
            if data[pos] != 0xE5 {
                let e = decode_entry(data.as_slice(), pos);
                assert(rest.take(DIR_RECORD_SIZE as int) =~= data@.subrange(
                    pos as int,
                    pos + DIR_RECORD_SIZE,
                ));
                entries.push(e);
                proof {
                    let rec = rest.take(DIR_RECORD_SIZE as int);
                    assert(seen.push(rec) + live_records(rest.skip(DIR_RECORD_SIZE as int)) =~= seen
                        + live_records(rest));
                    seen = seen.push(rec);
                }
            }
            pos = pos + DIR_RECORD_SIZE;
        }
        assert(seen + live_records(data@.skip(pos as int)) =~= seen);
        Ok(entries)
    }

    /// Reads the contents of the file that `entry` describes: its cluster
    /// chain, cut to `entry.size` bytes.
    pub fn open_file(&mut self, entry: &DirectoryEntry) -> (r: Result<Vec<u8>, FsError>)
        ensures
            final(self).disk() == old(self).disk(),
            final(self).bs() == old(self).bs(),
            entry.first_cluster < 2 ==> r == Err::<Vec<u8>, FsError>(FsError::InvalidCluster),
            match read_chain(old(self).disk(), old(self).bs(), entry.first_cluster as int) {
                Ok(data) => r matches Ok(v) && v@ == if entry.size <= data.len() {
                    data.take(entry.size as int)
                } else {
                    data
                },
                Err(e) => r == Err::<Vec<u8>, FsError>(e),
            },
    {
        let mut data = match self.read_cluster_chain(entry.first_cluster) {
            Ok(d) => d,
            Err(e) => return Err(e),
        };
        data.truncate(entry.size as usize);
        Ok(data)
    }
}

/// Size in bytes of the in-memory disk.
pub const DISK_SIZE: usize = 4096;

/// `img` with the bytes from `at` on replaced by `bytes`.
pub open spec fn splice(img: Seq<u8>, at: int, bytes: Seq<u8>) -> Seq<u8> {
    img.take(at) + bytes + img.skip(at + bytes.len())
}

/// Sector `lba` of a flat disk image; a sector past its end reads as zeros.
pub open spec fn image_sector(img: Seq<u8>, lba: u32) -> Seq<u8> {
    if (lba + 1) * 512 <= img.len() {
        img.subrange(lba * 512, lba * 512 + 512)
    } else {
        Seq::new(512, |i: int| 0u8)
    }
}

/// A FAT holding the media entry, a reserved entry, and end-of-chain marks
/// for clusters 2 and 3.
pub open spec fn sample_fat() -> Seq<u8> {
    seq![
        0xF8u8, 0xFF, 0xFF, 0x0F,
        0xFF, 0xFF, 0xFF, 0xFF,
        0xFF, 0xFF, 0xFF, 0x0F,
        0xFF, 0xFF, 0xFF, 0x0F,
    ]
}

/// The root directory record of `HELLO.TXT`: first cluster 3, 5 bytes.
pub open spec fn sample_record() -> Seq<u8> {
    seq![
        0x48u8, 0x45, 0x4C, 0x4C, 0x4F, 0x20, 0x20, 0x20, 0x54, 0x58, 0x54, 0x20,
        0, 0, 0, 0, 0, 0, 0, 0, 0, 0, 0, 0, 0, 0,
        3, 0, 5, 0, 0, 0,
    ]
}

/// The image of the sample volume: 512-byte sectors, one sector per
/// cluster, one reserved sector, two FATs of one sector, the root directory
/// in cluster 2 (sector 3) and `HELLO.TXT` holding `Hello` in cluster 3
/// (sector 4).
pub open spec fn sample_image() -> Seq<u8> {
    let img = Seq::new(DISK_SIZE as nat, |i: int| 0u8);
    let img = splice(img, 11, seq![0x00u8, 0x02]);
    let img = splice(img, 13, seq![1u8, 1, 0, 2]);
    let img = splice(img, 36, seq![1u8, 0, 0, 0]);
    let img = splice(img, 44, seq![2u8, 0, 0, 0]);
    let img = splice(img, 512, sample_fat());
    let img = splice(img, 1024, sample_fat());
    let img = splice(img, 1536, sample_record());
    splice(img, 2048, seq![0x48u8, 0x65, 0x6C, 0x6C, 0x6F])
}

/// Copies `bytes` into `data` from byte `at` on.
fn put_bytes(data: &mut Vec<u8>, at: usize, bytes: &[u8])
    requires
        at + bytes@.len() <= old(data)@.len(),
    ensures
        final(data)@ == splice(old(data)@, at as int, bytes@),
{
    let n = data.len();
    let mut k: usize = 0;
    while k < bytes.len()
        invariant
            n == old(data)@.len(),
            k <= bytes@.len(),
            at + bytes@.len() <= old(data)@.len(),
            data@.len() == old(data)@.len(),
            data@ == splice(old(data)@, at as int, bytes@.take(k as int)),
        decreases bytes@.len() - k,
    {
        data.set(at + k, bytes[k]);
        k = k + 1;
        assert(data@ =~= splice(old(data)@, at as int, bytes@.take(k as int)));
    }
    assert(bytes@.take(bytes@.len() as int) =~= bytes@);
}

/// A disk held in memory as a flat byte image.
pub struct MemoryDisk {
    data: Vec<u8>,
}

impl View for MemoryDisk {
    type V = Seq<u8>;

    closed spec fn view(&self) -> Seq<u8> {
        self.data@
    }
}

impl MemoryDisk {
    /// A disk holding the sample volume `sample_image` describes.
    pub fn new() -> (r: Self)
        ensures
            r@ == sample_image(),
    {
        let mut data: Vec<u8> = vec![0u8; DISK_SIZE];
        let fat = [
            0xF8u8, 0xFF, 0xFF, 0x0F,
            0xFF, 0xFF, 0xFF, 0xFF,
            0xFF, 0xFF, 0xFF, 0x0F,
            0xFF, 0xFF, 0xFF, 0x0F,
        ];
        let record = [
            0x48u8, 0x45, 0x4C, 0x4C, 0x4F, 0x20, 0x20, 0x20, 0x54, 0x58, 0x54, 0x20,
            0, 0, 0, 0, 0, 0, 0, 0, 0, 0, 0, 0, 0, 0,
            3, 0, 5, 0, 0, 0,
        ];
        let bps = [0x00u8, 0x02];
        let geometry = [1u8, 1, 0, 2];
        let spf = [1u8, 0, 0, 0];
        let root = [2u8, 0, 0, 0];
        let hello = [0x48u8, 0x65, 0x6C, 0x6C, 0x6F];
        assert(data@ =~= Seq::new(DISK_SIZE as nat, |i: int| 0u8));
        assert(fat@ =~= sample_fat());
        assert(record@ =~= sample_record());
        assert(bps@ =~= seq![0x00u8, 0x02]);
        assert(geometry@ =~= seq![1u8, 1, 0, 2]);
        assert(spf@ =~= seq![1u8, 0, 0, 0]);
        assert(root@ =~= seq![2u8, 0, 0, 0]);
        assert(hello@ =~= seq![0x48u8, 0x65, 0x6C, 0x6C, 0x6F]);
        put_bytes(&mut data, 11, bps.as_slice());
        put_bytes(&mut data, 13, geometry.as_slice());
        put_bytes(&mut data, 36, spf.as_slice());
        put_bytes(&mut data, 44, root.as_slice());
        put_bytes(&mut data, 512, fat.as_slice());
        put_bytes(&mut data, 1024, fat.as_slice());
        put_bytes(&mut data, 1536, record.as_slice());
        put_bytes(&mut data, 2048, hello.as_slice());
        MemoryDisk { data }
    }
}

impl BlockDevice for MemoryDisk {
    open spec fn sector(&self, lba: u32) -> Seq<u8> {
        image_sector(self@, lba)
    }

    open spec fn sector_count(&self) -> nat {
        self@.len() / 512
    }

    fn read_sector(&mut self, lba: u32, buf: &mut [u8; 512]) {
        let len = self.data.len();
        if lba as u64 >= len as u64 / 512 {
            let mut j: usize = 0;
            while j < SECTOR_SIZE
                invariant
                    j <= SECTOR_SIZE,
                    forall|i: int| 0 <= i < j ==> buf@[i] == 0u8,
                decreases SECTOR_SIZE - j,
            {
                buf[j] = 0;
                j = j + 1;
            }
            assert(buf@ =~= Seq::new(512, |i: int| 0u8));
            return;
        }
        let start = lba as usize * SECTOR_SIZE;
        let mut j: usize = 0;
        while j < SECTOR_SIZE
            invariant
                j <= SECTOR_SIZE,
                start + SECTOR_SIZE <= self.data@.len(),
                start == lba * 512,
                forall|i: int| 0 <= i < j ==> buf@[i] == self.data@[start + i],
            decreases SECTOR_SIZE - j,
        {
            buf[j] = self.data[start + j];
            j = j + 1;
        }
        assert(buf@ =~= self.data@.subrange(start as int, start + 512));
    }

    fn write_sector(&mut self, lba: u32, buf: &[u8; 512]) {
        let len = self.data.len();
        if lba as u64 >= len as u64 / 512 {
            return;
        }
        let start = lba as usize * SECTOR_SIZE;
        put_bytes(&mut self.data, start, buf.as_slice());
    }
}

} // verus!
