//! Finding the members of an LZIP file from its end.

use vstd::prelude::*;

use crate::error::Error;

verus! {

/// The size of the header of a member.
pub const HEADER_SIZE: usize = 6;

/// The size of the trailer of a member.
pub const TRAILER_SIZE: usize = 20;

/// Where in the trailer the size of the member is.
pub const MEMBER_SIZE_OFFSET: usize = 12;

/// The size of the magic bytes at the start of a member.
pub const MAGIC_SIZE: usize = 4;

/// A member of an LZIP file.
#[derive(Debug, Clone, Copy, PartialEq, Eq, Structural)]
pub struct LZIPMember {
    pub start_pos: u64,
    pub compressed_size: u64,
}

/// The number that bytes stand for, the least significant first.
pub open spec fn le_value(bytes: Seq<u8>) -> int
    decreases bytes.len(),
{
    if bytes.len() == 0 {
        0
    } else {
        bytes[0] + 0x100 * le_value(bytes.skip(1))
    }
}

/// The size of a member according to its trailer.
pub open spec fn size_in_trailer(trailer: Seq<u8>) -> int {
    le_value(trailer.subrange(12, 20))
}

/// The bytes with which a member starts: "LZIP".
pub open spec fn magic() -> Seq<u8> {
    seq![0x4Cu8, 0x5Au8, 0x49u8, 0x50u8]
}

/// The members in the first `pos` bytes of a file, where a member ends. They are found from the
/// end: each trailer tells how long its member is. Up to 19 bytes at the start, too few for a
/// trailer, are ignored.
pub open spec fn members_before(file: Seq<u8>, pos: int) -> Result<Seq<LZIPMember>, Error>
    decreases pos,
{
    let size = size_in_trailer(file.subrange(pos - TRAILER_SIZE, pos));
    let start = pos - size;
    if pos < TRAILER_SIZE {
        Ok(Seq::empty())
    } else if size <= 0 || size > pos {
        Err(Error::InvalidData("Invalid LZIP member size in trailer"))
    } else if start + MAGIC_SIZE > file.len() {
        Err(Error::Eof)
    } else if file.subrange(start, start + MAGIC_SIZE) != magic() {
        Err(Error::InvalidData("Invalid LZIP magic bytes"))
    } else {
        match members_before(file, start) {
            Ok(members) => Ok(
                members.push(LZIPMember { start_pos: start as u64, compressed_size: size as u64 }),
            ),
            Err(error) => Err(error),
        }
    }
}

/// The members of a file.
pub open spec fn members_of(file: Seq<u8>) -> Result<Seq<LZIPMember>, Error> {
    if file.len() < HEADER_SIZE + TRAILER_SIZE {
        Err(Error::InvalidData("File too small to contain a valid LZIP member"))
    } else {
        members_before(file, file.len() as int)
    }
}

/// The members lie one behind the other, up to `end`, with fewer bytes before them than a trailer
/// has, and each starts with the magic bytes.
pub open spec fn tile(members: Seq<LZIPMember>, file: Seq<u8>, end: int) -> bool {
    &&& forall|i: int|
        0 <= i < members.len() ==> {
            &&& (#[trigger] members[i]).compressed_size > 0
            &&& members[i].start_pos + members[i].compressed_size == if i + 1 < members.len() {
                members[i + 1].start_pos as int
            } else {
                end
            }
            &&& members[i].start_pos + MAGIC_SIZE <= file.len()
            &&& file.subrange(
                members[i].start_pos as int,
                members[i].start_pos + MAGIC_SIZE,
            ) == magic()
        }
    &&& members.len() > 0 ==> members[0].start_pos < TRAILER_SIZE
    &&& members.len() == 0 ==> end < TRAILER_SIZE
}

proof fn lemma_members_before_tile(file: Seq<u8>, pos: int)
    requires
        0 <= pos <= file.len() <= u64::MAX,
    ensures
        match members_before(file, pos) {
            Ok(members) => tile(members, file, pos),
            Err(_) => pos >= TRAILER_SIZE,
        },
    decreases pos,
{
    if pos >= TRAILER_SIZE {
        let size = size_in_trailer(file.subrange(pos - TRAILER_SIZE, pos));
        let start = pos - size;
        if 0 < size <= pos {
            lemma_members_before_tile(file, start);
            if let Ok(members) = members_before(file, start) {
                let all = members.push(
                    LZIPMember { start_pos: start as u64, compressed_size: size as u64 },
                );
                if start + MAGIC_SIZE <= file.len() && file.subrange(start, start + MAGIC_SIZE)
                    == magic() {
                    assert forall|i: int| 0 <= i < all.len() implies {
                        &&& (#[trigger] all[i]).compressed_size > 0
                        &&& all[i].start_pos + all[i].compressed_size == if i + 1 < all.len() {
                            all[i + 1].start_pos as int
                        } else {
                            pos
                        }
                        &&& all[i].start_pos + MAGIC_SIZE <= file.len()
                        &&& file.subrange(
                            all[i].start_pos as int,
                            all[i].start_pos + MAGIC_SIZE,
                        ) == magic()
                    } by {
                        if i < members.len() {
                            assert(members[i].compressed_size > 0);
                        }
                    }
                }
            }
        }
    }
}

/// The members of a file lie one behind the other up to its end, and there is at least one.
pub proof fn lemma_members_tile(file: Seq<u8>)
    requires
        file.len() <= u64::MAX,
        members_of(file) is Ok,
    ensures
        tile(members_of(file)->Ok_0, file, file.len() as int),
        members_of(file)->Ok_0.len() > 0,
{
    lemma_members_before_tile(file, file.len() as int);
}

/// These bytes are a member: they are enough for a header and a trailer, they start with "LZIP",
/// and the last eight bytes tell how many they are, the least significant byte first.
pub open spec fn is_member(m: Seq<u8>) -> bool {
    let n = m.len() as int;
    &&& n >= 26
    &&& m[0] == 0x4C && m[1] == 0x5A && m[2] == 0x49 && m[3] == 0x50
    &&& n == m[n - 8] + 0x100 * m[n - 7] + 0x1_0000 * m[n - 6] + 0x100_0000 * m[n - 5]
        + 0x1_0000_0000 * m[n - 4] + 0x100_0000_0000 * m[n - 3] + 0x1_0000_0000_0000 * m[n - 2]
        + 0x100_0000_0000_0000 * m[n - 1]
}

/// The bytes from a position to the next.
pub open spec fn piece(file: Seq<u8>, cuts: Seq<int>, i: int) -> Seq<u8> {
    file.subrange(cuts[i], cuts[i + 1])
}

/// The file is nothing but members: each begins at one of the positions and ends at the next. There
/// may be a few bytes before the first, too few for a trailer.
pub open spec fn is_cut_into_members(file: Seq<u8>, cuts: Seq<int>) -> bool {
    &&& cuts.len() >= 2
    &&& 0 <= cuts[0] < 20
    &&& cuts.last() == file.len()
    &&& forall|i: int|
        0 <= i < cuts.len() - 1 ==> {
            &&& is_member(#[trigger] piece(file, cuts, i))
            &&& cuts[i] <= cuts[i + 1] <= file.len()
        }
}

/// The members begin at these positions and end at the next.
pub open spec fn lie_at(members: Seq<LZIPMember>, cuts: Seq<int>) -> bool {
    &&& members.len() == cuts.len() - 1
    &&& forall|i: int|
        0 <= i < members.len() ==> {
            &&& (#[trigger] members[i]).start_pos == cuts[i]
            &&& members[i].start_pos + members[i].compressed_size == cuts[i + 1]
        }
}

/// The number in eight bytes, written out.
proof fn lemma_le_value_of_eight(b: Seq<u8>)
    requires
        b.len() == 8,
    ensures
        le_value(b) == b[0] + 0x100 * b[1] + 0x1_0000 * b[2] + 0x100_0000 * b[3] + 0x1_0000_0000
            * b[4] + 0x100_0000_0000 * b[5] + 0x1_0000_0000_0000 * b[6] + 0x100_0000_0000_0000
            * b[7],
{
    reveal_with_fuel(le_value, 9);
    assert(b.skip(1).skip(1) =~= b.skip(2));
    assert(b.skip(2).skip(1) =~= b.skip(3));
    assert(b.skip(3).skip(1) =~= b.skip(4));
    assert(b.skip(4).skip(1) =~= b.skip(5));
    assert(b.skip(5).skip(1) =~= b.skip(6));
    assert(b.skip(6).skip(1) =~= b.skip(7));
    assert(b.skip(7).skip(1) =~= b.skip(8));
}

/// The size of a member is the number in the last eight bytes of its trailer: each byte counts 256
/// times as much as the one before it.
pub proof fn lemma_size_in_trailer(t: Seq<u8>)
    requires
        t.len() == 20,
    ensures
        size_in_trailer(t) == t[12] + 0x100 * t[13] + 0x1_0000 * t[14] + 0x100_0000 * t[15]
            + 0x1_0000_0000 * t[16] + 0x100_0000_0000 * t[17] + 0x1_0000_0000_0000 * t[18]
            + 0x100_0000_0000_0000 * t[19],
{
    lemma_le_value_of_eight(t.subrange(12, 20));
}

/// The size in the trailer of the member that ends at `pos`, written out.
proof fn lemma_size_before(file: Seq<u8>, pos: int)
    requires
        20 <= pos <= file.len(),
    ensures
        size_in_trailer(file.subrange(pos - TRAILER_SIZE, pos)) == file[pos - 8] + 0x100 * file[pos
            - 7] + 0x1_0000 * file[pos - 6] + 0x100_0000 * file[pos - 5] + 0x1_0000_0000 * file[pos
            - 4] + 0x100_0000_0000 * file[pos - 3] + 0x1_0000_0000_0000 * file[pos - 2]
            + 0x100_0000_0000_0000 * file[pos - 1],
{
    lemma_size_in_trailer(file.subrange(pos - TRAILER_SIZE, pos));
}

/// What a scan finds of a member that ends at `pos`.
#[verifier::spinoff_prover]
#[verifier::rlimit(60)]
proof fn lemma_member_in_file(file: Seq<u8>, start: int, pos: int)
    requires
        0 <= start <= pos <= file.len(),
        is_member(file.subrange(start, pos)),
    ensures
        pos - start >= 26,
        size_in_trailer(file.subrange(pos - TRAILER_SIZE, pos)) == pos - start,
        file.subrange(start, start + MAGIC_SIZE) == magic(),
{
    let m = file.subrange(start, pos);
    let n = m.len() as int;
    lemma_size_before(file, pos);
    assert(m[n - 8] == file[pos - 8] && m[n - 7] == file[pos - 7]);
    assert(m[n - 6] == file[pos - 6] && m[n - 5] == file[pos - 5]);
    assert(m[n - 4] == file[pos - 4] && m[n - 3] == file[pos - 3]);
    assert(m[n - 2] == file[pos - 2] && m[n - 1] == file[pos - 1]);
    assert(m[0] == file[start] && m[1] == file[start + 1]);
    assert(m[2] == file[start + 2] && m[3] == file[start + 3]);
    assert(file.subrange(start, start + MAGIC_SIZE) =~= magic());
}

/// The members up to one of the cuts.
#[verifier::spinoff_prover]
#[verifier::rlimit(60)]
proof fn lemma_members_before_cut(file: Seq<u8>, cuts: Seq<int>, k: int)
    requires
        file.len() <= u64::MAX,
        is_cut_into_members(file, cuts),
        0 <= k < cuts.len(),
    ensures
        0 <= cuts[k] <= file.len(),
        members_before(file, cuts[k]) is Ok,
        lie_at(members_before(file, cuts[k])->Ok_0, cuts.take(k + 1)),
    decreases k,
{
    if k > 0 {
        lemma_members_before_cut(file, cuts, k - 1);
        let (start, pos) = (cuts[k - 1], cuts[k]);
        assert(is_member(piece(file, cuts, k - 1)));
        lemma_member_in_file(file, start, pos);
        let before = members_before(file, start)->Ok_0;
        let last = LZIPMember { start_pos: start as u64, compressed_size: (pos - start) as u64 };
        let all = before.push(last);
        assert(members_before(file, pos) == Ok::<Seq<LZIPMember>, Error>(all));
        assert forall|i: int| 0 <= i < all.len() implies {
            &&& (#[trigger] all[i]).start_pos == cuts.take(k + 1)[i]
            &&& all[i].start_pos + all[i].compressed_size == cuts.take(k + 1)[i + 1]
        } by {
            if i < k - 1 {
                assert(before[i].start_pos == cuts.take(k)[i]);
                assert(before[i].start_pos + before[i].compressed_size == cuts.take(k)[i + 1]);
            }
        }
    } else {
        assert(is_member(piece(file, cuts, 0)));
    }
}

/// A file of members is scanned to exactly these members, however many there are and however long
/// they are.
pub proof fn lemma_file_of_members_is_scanned(file: Seq<u8>, cuts: Seq<int>)
    requires
        file.len() <= u64::MAX,
        is_cut_into_members(file, cuts),
    ensures
        members_of(file) is Ok,
        members_of(file)->Ok_0.len() == cuts.len() - 1,
        forall|i: int|
            0 <= i < cuts.len() - 1 ==> {
                let member = #[trigger] members_of(file)->Ok_0[i];
                &&& member.start_pos == cuts[i]
                &&& member.compressed_size == cuts[i + 1] - cuts[i]
            },
{
    let n = cuts.len() - 1;
    lemma_members_before_cut(file, cuts, n);
    assert(cuts.take(n + 1) =~= cuts);
    lemma_members_before_cut(file, cuts, n - 1);
    assert(is_member(piece(file, cuts, n - 1)));
}

proof fn lemma_members_before_tell_sizes(file: Seq<u8>, pos: int, i: int)
    requires
        0 <= pos <= file.len() <= u64::MAX,
        members_before(file, pos) is Ok,
        0 <= i < members_before(file, pos)->Ok_0.len(),
    ensures
        ({
            let member = members_before(file, pos)->Ok_0[i];
            let end = member.start_pos + member.compressed_size;
            &&& 20 <= end <= file.len()
            &&& member.compressed_size == file[end - 8] + 0x100 * file[end - 7] + 0x1_0000
                * file[end - 6] + 0x100_0000 * file[end - 5] + 0x1_0000_0000 * file[end - 4]
                + 0x100_0000_0000 * file[end - 3] + 0x1_0000_0000_0000 * file[end - 2]
                + 0x100_0000_0000_0000 * file[end - 1]
            &&& file[member.start_pos as int] == 0x4C
            &&& file[member.start_pos + 1] == 0x5A
            &&& file[member.start_pos + 2] == 0x49
            &&& file[member.start_pos + 3] == 0x50
        }),
    decreases pos,
{
    lemma_size_before(file, pos);
    let size = size_in_trailer(file.subrange(pos - TRAILER_SIZE, pos));
    let start = pos - size;
    if i < members_before(file, pos)->Ok_0.len() - 1 {
        lemma_members_before_tell_sizes(file, start, i);
    } else {
        let head = file.subrange(start, start + MAGIC_SIZE);
        assert(head[0] == 0x4C && head[1] == 0x5A && head[2] == 0x49 && head[3] == 0x50);
    }
}

/// Each member that is found starts with "LZIP" and has the length that its last eight bytes tell.
pub proof fn lemma_members_tell_sizes(file: Seq<u8>, i: int)
    requires
        file.len() <= u64::MAX,
        members_of(file) is Ok,
        0 <= i < members_of(file)->Ok_0.len(),
    ensures
        ({
            let member = members_of(file)->Ok_0[i];
            let end = member.start_pos + member.compressed_size;
            &&& 20 <= end <= file.len()
            &&& member.compressed_size == file[end - 8] + 0x100 * file[end - 7] + 0x1_0000
                * file[end - 6] + 0x100_0000 * file[end - 5] + 0x1_0000_0000 * file[end - 4]
                + 0x100_0000_0000 * file[end - 3] + 0x1_0000_0000_0000 * file[end - 2]
                + 0x100_0000_0000_0000 * file[end - 1]
            &&& file[member.start_pos as int] == 0x4C
            &&& file[member.start_pos + 1] == 0x5A
            &&& file[member.start_pos + 2] == 0x49
            &&& file[member.start_pos + 3] == 0x50
        }),
{
    lemma_members_before_tell_sizes(file, file.len() as int, i);
}

/// What has to be read next to find the members of a file.
#[derive(Debug, Clone, Copy, PartialEq, Eq, Structural)]
pub enum ScanStep {
    /// The trailer at this position.
    Trailer(u64),
    /// Nothing: all members have been found.
    Done,
}

/// Finds the members of a file, the last one first.
pub struct MemberScanner {
    current_pos: u64,
    member_size: u64,
    members: Vec<LZIPMember>,
}

impl MemberScanner {
    /// Where the members end that have not been found yet.
    pub closed spec fn position(&self) -> int {
        self.current_pos as int
    }

    /// The size of the member whose magic bytes have to be checked.
    pub closed spec fn candidate_size(&self) -> int {
        self.member_size as int
    }

    /// The members that have been found, in the order of the file.
    pub closed spec fn found(&self) -> Seq<LZIPMember> {
        self.members@.reverse()
    }

    /// What is left of the result for a file once some members have been found.
    pub open spec fn agrees(&self, file: Seq<u8>) -> bool {
        &&& 0 <= self.position() <= file.len()
        &&& members_of(file) == match members_before(file, self.position()) {
            Ok(members) => Ok::<Seq<LZIPMember>, Error>(members + self.found()),
            Err(error) => Err(error),
        }
    }

    /// The trailer before which the next member lies.
    pub open spec fn trailer_in(&self, file: Seq<u8>) -> Seq<u8> {
        file.subrange(self.position() - TRAILER_SIZE, self.position())
    }

    /// Where the next member starts, according to its trailer.
    pub open spec fn start_in(&self, file: Seq<u8>) -> int {
        self.position() - size_in_trailer(self.trailer_in(file))
    }

    /// The bytes where the magic bytes of the next member have to be.
    pub open spec fn magic_in(&self, file: Seq<u8>) -> Seq<u8> {
        file.subrange(self.start_in(file), self.start_in(file) + MAGIC_SIZE)
    }

    /// A scanner that starts at the end of a file agrees with it.
    pub proof fn lemma_start_agrees(&self, file: Seq<u8>)
        requires
            file.len() >= HEADER_SIZE + TRAILER_SIZE,
            self.position() == file.len(),
            self.found() == Seq::<LZIPMember>::empty(),
        ensures
            self.agrees(file),
    {
        if let Ok(members) = members_before(file, file.len() as int) {
            assert(members + Seq::<LZIPMember>::empty() =~= members);
        }
    }

    /// A scanner that is given the bytes of a file goes on to agree with it: `after` is what
    /// `self` becomes when it has read the trailer and the magic bytes of the next member.
    pub proof fn lemma_member_agrees(&self, file: Seq<u8>, after: &Self)
        requires
            self.agrees(file),
            self.position() >= TRAILER_SIZE,
            0 <= self.start_in(file) < self.position(),
            self.start_in(file) + MAGIC_SIZE <= file.len(),
            self.magic_in(file) == magic(),
            after.position() == self.start_in(file),
            after.found() == seq![
                LZIPMember {
                    start_pos: self.start_in(file) as u64,
                    compressed_size: size_in_trailer(self.trailer_in(file)) as u64,
                },
            ] + self.found(),
        ensures
            after.agrees(file),
    {
        if let Ok(members) = members_before(file, self.start_in(file)) {
            let last = LZIPMember {
                start_pos: self.start_in(file) as u64,
                compressed_size: size_in_trailer(self.trailer_in(file)) as u64,
            };
            assert(members.push(last) + self.found() =~= members + (seq![last] + self.found()));
        }
    }

    /// A scanner that is given the bytes of a file fails as the file does.
    pub proof fn lemma_failure_agrees(&self, file: Seq<u8>)
        requires
            self.agrees(file),
            self.position() >= TRAILER_SIZE,
        ensures
            if !(0 <= self.start_in(file) < self.position()) {
                members_of(file) == Err::<Seq<LZIPMember>, Error>(
                    Error::InvalidData("Invalid LZIP member size in trailer"),
                )
            } else if self.start_in(file) + MAGIC_SIZE > file.len() {
                members_of(file) == Err::<Seq<LZIPMember>, Error>(Error::Eof)
            } else {
                self.magic_in(file) != magic() ==> members_of(file) == Err::<
                    Seq<LZIPMember>,
                    Error,
                >(Error::InvalidData("Invalid LZIP magic bytes"))
            },
    {
    }

    /// A scanner that is done has found the members of the file it agrees with.
    pub proof fn lemma_done_agrees(&self, file: Seq<u8>)
        requires
            self.agrees(file),
            self.position() < TRAILER_SIZE,
        ensures
            members_of(file) == Ok::<Seq<LZIPMember>, Error>(self.found()),
    {
        assert(Seq::<LZIPMember>::empty() + self.found() =~= self.found());
    }

    /// Starts at the end of a file.
    pub fn new(file_size: u64) -> (result: Result<Self, Error>)
        ensures
            match result {
                Ok(scanner) => {
                    &&& file_size >= HEADER_SIZE + TRAILER_SIZE
                    &&& scanner.position() == file_size
                    &&& scanner.found() == Seq::<LZIPMember>::empty()
                },
                Err(error) => {
                    &&& error == Error::InvalidData("File too small to contain a valid LZIP member")
                    &&& file_size < HEADER_SIZE + TRAILER_SIZE
                },
            },
    {
        if file_size < (HEADER_SIZE + TRAILER_SIZE) as u64 {
            return Err(Error::InvalidData("File too small to contain a valid LZIP member"));
        }
        let scanner = MemberScanner {
            current_pos: file_size,
            member_size: 0,
            members: Vec::new(),
        };
        assert(scanner.found() =~= Seq::<LZIPMember>::empty());
        Ok(scanner)
    }

    /// Decides what has to be read next.
    pub fn next_step(&self) -> (step: ScanStep)
        ensures
            step == if self.position() < TRAILER_SIZE {
                ScanStep::Done
            } else {
                ScanStep::Trailer((self.position() - TRAILER_SIZE) as u64)
            },
    {
        if self.current_pos < TRAILER_SIZE as u64 {
            ScanStep::Done
        } else {
            ScanStep::Trailer(self.current_pos - TRAILER_SIZE as u64)
        }
    }

    /// Takes a trailer. Returns the position where the magic bytes of its member have to be.
    pub fn trailer_read(&mut self, trailer: &[u8]) -> (result: Result<u64, Error>)
        requires
            trailer@.len() == TRAILER_SIZE,
        ensures
            final(self).position() == old(self).position(),
            final(self).found() == old(self).found(),
            result matches Ok(start) ==> old(self).position() - start == trailer@[12] + 0x100
                * trailer@[13] + 0x1_0000 * trailer@[14] + 0x100_0000 * trailer@[15] + 0x1_0000_0000
                * trailer@[16] + 0x100_0000_0000 * trailer@[17] + 0x1_0000_0000_0000 * trailer@[18]
                + 0x100_0000_0000_0000 * trailer@[19],
            ({
                let size = size_in_trailer(trailer@);
                match result {
                    Ok(start) => {
                        &&& 0 < size <= old(self).position()
                        &&& start == old(self).position() - size
                        &&& final(self).candidate_size() == size
                    },
                    Err(error) => {
                        &&& error == Error::InvalidData("Invalid LZIP member size in trailer")
                        &&& size <= 0 || size > old(self).position()
                    },
                }
            }),
    {
        proof {
            lemma_size_in_trailer(trailer@);
        }
        let size: u64 = le_u64(
            vstd::slice::slice_subrange(trailer, MEMBER_SIZE_OFFSET, TRAILER_SIZE),
        );
        if size == 0 || size > self.current_pos {
            return Err(Error::InvalidData("Invalid LZIP member size in trailer"));
        }
        self.member_size = size;
        Ok(self.current_pos - size)
    }

    /// Takes the bytes where the magic bytes of a member have to be.
    pub fn magic_read(&mut self, bytes: &[u8]) -> (result: Result<(), Error>)
        requires
            bytes@.len() == MAGIC_SIZE,
            0 < old(self).candidate_size() <= old(self).position(),
        ensures
            match result {
                Ok(_) => {
                    let start = old(self).position() - old(self).candidate_size();
                    &&& bytes@ == magic()
                    &&& final(self).position() == start
                    &&& final(self).found() == seq![
                        LZIPMember {
                            start_pos: start as u64,
                            compressed_size: old(self).candidate_size() as u64,
                        },
                    ] + old(self).found()
                },
                Err(error) => {
                    &&& error == Error::InvalidData("Invalid LZIP magic bytes")
                    &&& bytes@ != magic()
                    &&& *final(self) == *old(self)
                },
            },
    {
        if bytes[0] != 0x4C || bytes[1] != 0x5A || bytes[2] != 0x49 || bytes[3] != 0x50 {
            return Err(Error::InvalidData("Invalid LZIP magic bytes"));
        }
        assert(bytes@ =~= magic());
        let start_pos: u64 = self.current_pos - self.member_size;
        self.members.push(LZIPMember { start_pos, compressed_size: self.member_size });
        self.current_pos = start_pos;
        assert(self.members@.reverse() =~= seq![
            LZIPMember { start_pos, compressed_size: self.member_size },
        ] + old(self).members@.reverse());
        Ok(())
    }

    /// The members in the order of the file.
    pub fn finish(self) -> (result: Result<Vec<LZIPMember>, Error>)
        ensures
            match result {
                Ok(members) => members@ == self.found() && members@.len() > 0,
                Err(error) => {
                    &&& error == Error::InvalidData("No valid LZIP members found")
                    &&& self.found().len() == 0
                },
            },
    {
        if self.members.len() == 0 {
            return Err(Error::InvalidData("No valid LZIP members found"));
        }
        let mut members: Vec<LZIPMember> = Vec::new();
        let mut left: usize = self.members.len();
        while left > 0
            invariant
                left <= self.members@.len(),
                members@.len() == self.members@.len() - left,
                forall|i: int|
                    0 <= i < members@.len() ==> members@[i] == self.members@[self.members@.len() - 1
                        - i],
            decreases left,
        {
            left -= 1;
            members.push(self.members[left]);
        }
        assert(members@ =~= self.members@.reverse());
        Ok(members)
    }
}

/// The number that eight bytes stand for, the least significant first.
fn le_u64(bytes: &[u8]) -> (value: u64)
    requires
        bytes@.len() == 8,
    ensures
        value == le_value(bytes@),
{
    let mut value: u64 = 0;
    let mut left: usize = 8;
    assert(bytes@.skip(8) =~= Seq::<u8>::empty());
    assert(le_value(Seq::<u8>::empty()) == 0);
    while left > 0
        invariant
            left <= 8,
            bytes@.len() == 8,
            value == le_value(bytes@.skip(left as int)),
            left == 8 ==> value == 0,
            left == 7 ==> value <= 0xFF,
            left == 6 ==> value <= 0xFFFF,
            left == 5 ==> value <= 0xFF_FFFF,
            left == 4 ==> value <= 0xFFFF_FFFF,
            left == 3 ==> value <= 0xFF_FFFF_FFFF,
            left == 2 ==> value <= 0xFFFF_FFFF_FFFF,
            left == 1 ==> value <= 0xFF_FFFF_FFFF_FFFF,
        decreases left,
    {
        let ghost rest = bytes@.skip(left as int);
        left -= 1;
        value = value * 0x100 + bytes[left] as u64;
        assert(bytes@.skip(left as int).skip(1) =~= rest);
        assert(bytes@.skip(left as int)[0] == bytes@[left as int]);
    }
    assert(bytes@.skip(0) =~= bytes@);
    value
}

/// Goes through a file from its end.
fn scan_backwards(file: &[u8]) -> (result: Result<Vec<LZIPMember>, Error>)
    ensures
        match result {
            Ok(members) => members_of(file@) == Ok::<Seq<LZIPMember>, Error>(members@),
            Err(error) => members_of(file@) == Err::<Seq<LZIPMember>, Error>(error),
        },
{
    let mut scanner = match MemberScanner::new(file.len() as u64) {
        Ok(scanner) => scanner,
        Err(error) => {
            return Err(error);
        },
    };
    proof {
        scanner.lemma_start_agrees(file@);
    }
    loop
        invariant
            scanner.agrees(file@),
            file@.len() >= HEADER_SIZE + TRAILER_SIZE,
            file@.len() == file.len(),
            scanner.found().len() == 0 ==> scanner.position() == file@.len(),
        ensures
            scanner.agrees(file@),
            scanner.position() < TRAILER_SIZE,
            scanner.found().len() > 0,
        decreases scanner.position(),
    {
        match scanner.next_step() {
            ScanStep::Done => {
                break;
            },
            ScanStep::Trailer(at) => {
                let ghost before = scanner;
                proof {
                    scanner.lemma_failure_agrees(file@);
                }
                let from: usize = at as usize;
                let start: u64 = match scanner.trailer_read(
                    vstd::slice::slice_subrange(file, from, from + TRAILER_SIZE),
                ) {
                    Ok(start) => start,
                    Err(error) => {
                        return Err(error);
                    },
                };
                if file.len() as u64 - start < MAGIC_SIZE as u64 {
                    return Err(Error::Eof);
                }
                let head: usize = start as usize;
                match scanner.magic_read(
                    vstd::slice::slice_subrange(file, head, head + MAGIC_SIZE),
                ) {
                    Ok(_) => {},
                    Err(error) => {
                        return Err(error);
                    },
                }
                proof {
                    before.lemma_member_agrees(file@, &scanner);
                }
            },
        }
    }
    proof {
        scanner.lemma_done_agrees(file@);
    }
    scanner.finish()
}

/// Finds the members of a file that is in memory. A file that is nothing but members is found to
/// hold just these.
pub fn scan_members(file: &[u8]) -> (result: Result<Vec<LZIPMember>, Error>)
    ensures
        match result {
            Ok(members) => members_of(file@) == Ok::<Seq<LZIPMember>, Error>(members@),
            Err(error) => members_of(file@) == Err::<Seq<LZIPMember>, Error>(error),
        },
        forall|cuts: Seq<int>| #[trigger]
            is_cut_into_members(file@, cuts) ==> result is Ok && lie_at(result->Ok_0@, cuts),
{
    let result = scan_backwards(file);
    proof {
        assert(file@.len() == file.len());
        assert forall|cuts: Seq<int>| #[trigger]
            is_cut_into_members(file@, cuts) implies result is Ok && lie_at(
            result->Ok_0@,
            cuts,
        ) by {
            lemma_file_of_members_is_scanned(file@, cuts);
        }
    }
    result
}

/// Scanning a file that is nothing but members gives exactly these, in their order.
#[verifier::spinoff_prover]
#[verifier::rlimit(60)]
pub proof fn lemma_scan_finds_members(
    file: &[u8],
    cuts: Seq<int>,
    result: Result<Vec<LZIPMember>, Error>,
)
    requires
        call_ensures(scan_members, (file,), result),
        file@.len() <= u64::MAX,
        cuts.len() >= 2,
        0 <= cuts[0] < 20,
        cuts.last() == file@.len(),
        forall|i: int|
            0 <= i < cuts.len() - 1 ==> {
                let m = piece(file@, cuts, i);
                let n = #[trigger] piece(file@, cuts, i).len() as int;
                &&& cuts[i] <= cuts[i + 1] <= file@.len()
                &&& n >= 26
                &&& m[0] == 0x4C && m[1] == 0x5A && m[2] == 0x49 && m[3] == 0x50
                &&& n == m[n - 8] + 0x100 * m[n - 7] + 0x1_0000 * m[n - 6] + 0x100_0000 * m[n - 5]
                    + 0x1_0000_0000 * m[n - 4] + 0x100_0000_0000 * m[n - 3] + 0x1_0000_0000_0000
                    * m[n - 2] + 0x100_0000_0000_0000 * m[n - 1]
            },
    ensures
        result is Ok,
        result->Ok_0@.len() == cuts.len() - 1,
        forall|i: int|
            0 <= i < cuts.len() - 1 ==> {
                let member = #[trigger] result->Ok_0@[i];
                &&& member.start_pos == cuts[i]
                &&& member.compressed_size == cuts[i + 1] - cuts[i]
            },
{
    assert forall|i: int| 0 <= i < cuts.len() - 1 implies {
        &&& is_member(#[trigger] piece(file@, cuts, i))
        &&& cuts[i] <= cuts[i + 1] <= file@.len()
    } by {
        assert(piece(file@, cuts, i).len() >= 26);
    }
    assert(is_cut_into_members(file@, cuts));
    lemma_file_of_members_is_scanned(file@, cuts);
}

/// A scan that takes a trailer goes back by just the size in its last eight bytes, and refuses it
/// only if that is zero or more than there is.
pub proof fn lemma_trailer_tells_start(
    scanner: &mut MemberScanner,
    trailer: &[u8],
    result: Result<u64, Error>,
)
    requires
        trailer@.len() == 20,
        call_ensures(MemberScanner::trailer_read, (scanner, trailer), result),
    ensures
        ({
            let t = trailer@;
            let size = t[12] + 0x100 * t[13] + 0x1_0000 * t[14] + 0x100_0000 * t[15] + 0x1_0000_0000
                * t[16] + 0x100_0000_0000 * t[17] + 0x1_0000_0000_0000 * t[18]
                + 0x100_0000_0000_0000 * t[19];
            &&& result is Ok <==> 0 < size <= old(scanner).position()
            &&& result is Ok ==> result->Ok_0 == old(scanner).position() - size
            &&& result is Ok ==> final(scanner).candidate_size() == size
            &&& final(scanner).position() == old(scanner).position()
            &&& final(scanner).found() == old(scanner).found()
        }),
{
    lemma_size_in_trailer(trailer@);
}

/// A scan that has read the bytes "LZIP" where a member has to start has found that member, and
/// goes on before it. Any other bytes are refused.
pub proof fn lemma_magic_tells_member(
    scanner: &mut MemberScanner,
    bytes: &[u8],
    result: Result<(), Error>,
)
    requires
        bytes@.len() == 4,
        0 < old(scanner).candidate_size() <= old(scanner).position() <= u64::MAX,
        call_ensures(MemberScanner::magic_read, (scanner, bytes), result),
    ensures
        result is Ok <==> bytes@[0] == 0x4C && bytes@[1] == 0x5A && bytes@[2] == 0x49 && bytes@[3]
            == 0x50,
        result is Ok ==> {
            let start = old(scanner).position() - old(scanner).candidate_size();
            &&& final(scanner).position() == start
            &&& final(scanner).found().len() == old(scanner).found().len() + 1
            &&& final(scanner).found()[0].start_pos == start
            &&& final(scanner).found()[0].compressed_size == old(scanner).candidate_size()
            &&& final(scanner).found().skip(1) == old(scanner).found()
        },
{
    if bytes@[0] == 0x4C && bytes@[1] == 0x5A && bytes@[2] == 0x49 && bytes@[3] == 0x50 {
        assert(bytes@ =~= magic());
    }
    if result is Ok {
        assert(final(scanner).found().skip(1) =~= old(scanner).found());
    }
}

} // verus!
