//! The matches that hash chains lead to.

use vstd::prelude::*;

use super::history::Keys;
use super::lz_encoder::Match;

verus! {

/// The number of bytes from which the hashes of a hash chain are computed.
pub const HASHED_BYTES: i32 = 4;

/// A search for matches.
pub struct Search {
    pub stream: Seq<u8>,
    /// The mask of the hashes of four bytes.
    pub mask: u32,
    /// Where the matches begin.
    pub pos: int,
    pub nice_len: int,
    pub match_len_max: int,
    /// The maximum distance.
    pub reach: int,
}

impl Search {
    /// The number of bytes from the position on.
    pub open spec fn avail(self) -> int {
        self.stream.len() - self.pos
    }

    /// The maximum length.
    pub open spec fn limit(self) -> int {
        super::lz_encoder::len_limit(self.stream, self.pos, self.match_len_max)
    }

    /// The length that is enough to stop: the nice length, or all there is.
    pub open spec fn nice(self) -> int {
        if self.avail() < self.match_len_max && self.avail() < self.nice_len {
            self.avail()
        } else {
            self.nice_len
        }
    }

    /// The length of the match at a distance.
    pub open spec fn len_at(self, distance: int) -> int {
        super::history::match_len(self.stream, self.pos, distance, self.limit())
    }

    /// The distance to the latest earlier position with the same key, if it is within reach.
    pub open spec fn distance_to_latest(self, keys: Keys) -> Option<int> {
        let l = keys.previous(self.pos);
        if l >= 0 && self.pos - l <= self.reach {
            Some(self.pos - l)
        } else {
            None
        }
    }

    /// The matches that are found through the hashes of two and three bytes. The latest position
    /// with the same hash is a match if its first byte is the same, since then all hashed bytes
    /// are.
    pub open spec fn short_matches(self) -> Seq<Match> {
        let two = self.distance_to_latest(Keys::two(self.stream));
        let three = self.distance_to_latest(Keys::three(self.stream));
        let first = self.stream[self.pos];
        let two_matches = two is Some && self.stream[self.pos - two->0] == first;
        let three_matches = three is Some && three != two && self.stream[self.pos - three->0]
            == first;
        if three_matches {
            let last = Match { len: self.len_at(three->0), dist: three->0 - 1 };
            if two_matches {
                seq![Match { len: 2, dist: two->0 - 1 }, last]
            } else {
                seq![last]
            }
        } else if two_matches {
            seq![Match { len: self.len_at(two->0), dist: two->0 - 1 }]
        } else {
            seq![]
        }
    }

    /// The matches that are found by following the chain from `candidate` on: those that are
    /// longer than `best` and than all before them. The chain leads to ever earlier positions with
    /// the same hash of four bytes. It is given up after `depth` candidates, out of reach, or when
    /// a match is long enough.
    pub open spec fn chain_matches(self, candidate: int, best: int, depth: nat) -> Seq<Match>
        decreases depth,
    {
        if depth == 0 || candidate < 0 || self.pos - candidate > self.reach {
            seq![]
        } else {
            let next = Keys::four(self.stream, self.mask).previous(candidate);
            let len = self.len_at(self.pos - candidate);
            let this = seq![Match { len, dist: self.pos - candidate - 1 }];
            if len <= best {
                self.chain_matches(next, best, (depth - 1) as nat)
            } else if len >= self.nice() {
                this
            } else {
                this + self.chain_matches(next, len, (depth - 1) as nat)
            }
        }
    }

    /// The length that the matches from the chain have to exceed.
    pub open spec fn best_short(self) -> int {
        let short = self.short_matches();
        if short.len() > 0 && short.last().len > 3 {
            short.last().len
        } else {
            3
        }
    }

    /// All matches: first the short ones and then, unless the last of them is long enough, those
    /// from the chain that are longer than three bytes and longer than it.
    pub open spec fn matches(self, depth: nat) -> Seq<Match> {
        let short = self.short_matches();
        if self.avail() < HASHED_BYTES {
            seq![]
        } else if short.len() > 0 && short.last().len >= self.nice() {
            short
        } else {
            let candidate = Keys::four(self.stream, self.mask).previous(self.pos);
            short + self.chain_matches(candidate, self.best_short(), depth)
        }
    }

    /// There are enough bytes to search, and matches may be long enough to be found.
    pub open spec fn can_start(self) -> bool {
        &&& 0 <= self.pos
        &&& self.avail() >= HASHED_BYTES
        &&& self.match_len_max >= 3
        &&& self.nice_len >= 3
    }

    /// Every match is what it says.
    pub open spec fn all_true(self, found: Seq<Match>) -> bool {
        super::lz_encoder::all_true(
            found,
            self.stream,
            self.pos,
            self.match_len_max,
            self.reach,
        )
    }

    /// Every match but the last is too short to stop.
    pub open spec fn only_last_is_nice(self, found: Seq<Match>) -> bool {
        forall|i: int| 0 <= i < found.len() - 1 ==> (#[trigger] found[i]).len < self.nice()
    }

    proof fn lemma_lengths_grow(self, found: Seq<Match>, i: int)
        requires
            self.all_true(found),
            0 <= i < found.len(),
        ensures
            found[i].len >= i + 2,
        decreases i,
    {
        if i > 0 {
            self.lemma_lengths_grow(found, i - 1);
            assert(found[i - 1].len < found[i].len);
        }
    }

    /// The short matches are true.
    proof fn lemma_short_matches_true(self)
        requires
            self.can_start(),
        ensures
            self.all_true(self.short_matches()),
            self.short_matches().len() <= 2,
    {
        let s = self.stream;
        let p = self.pos;
        let keys2 = Keys::two(s);
        let keys3 = Keys::three(s);
        let two = self.distance_to_latest(keys2);
        let three = self.distance_to_latest(keys3);
        keys2.lemma_latest(keys2.at(p), p);
        keys3.lemma_latest(keys3.at(p), p);
        let two_matches = two is Some && s[p - two->0] == s[p];
        let three_matches = three is Some && three != two && s[p - three->0] == s[p];
        if two_matches {
            keys2.lemma_same_key(p, p - two->0);
            super::history::lemma_match_at_least(s, p, two->0, self.limit(), 2);
        }
        if three_matches {
            keys3.lemma_same_key(p, p - three->0);
            super::history::lemma_match_at_least(s, p, three->0, self.limit(), 3);
        }
        if two_matches && three_matches {
            let q2 = p - two->0;
            let q3 = p - three->0;
            assert(s[p + 1] == s[q2 + 1]);
            if s[q2 + 2] == s[p + 2] {
                // Then both would be the latest position with the same three bytes.
                assert(keys3.at(q2) == keys3.at(p));
                assert(s[p + 1] == s[q3 + 1]);
                assert(keys2.at(q3) == keys2.at(p));
                assert(false);
            }
            super::history::lemma_match_len_unique(s, p, two->0, self.limit(), 2);
        }
    }

    /// The matches from the chain are true, and each is longer than `best`.
    proof fn lemma_chain_matches_true(self, candidate: int, best: int, depth: nat)
        requires
            self.can_start(),
            candidate < self.pos,
            best >= 2,
        ensures
            ({
                let found = self.chain_matches(candidate, best, depth);
                &&& self.all_true(found)
                &&& forall|i: int| 0 <= i < found.len() ==> (#[trigger] found[i]).len > best
                &&& self.only_last_is_nice(found)
            }),
        decreases depth,
    {
        if !(depth == 0 || candidate < 0 || self.pos - candidate > self.reach) {
            let keys = Keys::four(self.stream, self.mask);
            let next = keys.previous(candidate);
            keys.lemma_latest(keys.at(candidate), candidate);
            let len = self.len_at(self.pos - candidate);
            let less = (depth - 1) as nat;
            if len <= best {
                self.lemma_chain_matches_true(next, best, less);
            } else if len < self.nice() {
                self.lemma_chain_matches_true(next, len, less);
                let first = seq![Match { len, dist: self.pos - candidate - 1 }];
                let rest = self.chain_matches(next, len, less);
                let all = first + rest;
                assert forall|i: int, j: int| 0 <= i < j < all.len() implies all[i].len
                    < all[j].len by {
                    if i > 0 {
                        assert(rest[i - 1].len < rest[j - 1].len);
                    }
                }
            }
        }
    }

    /// All matches are true, and they are fewer than the length that is enough to stop.
    pub proof fn lemma_matches_true(self, depth: nat)
        requires
            self.can_start(),
        ensures
            self.all_true(self.matches(depth)),
            self.matches(depth).len() <= self.nice() - 1,
    {
        let short = self.short_matches();
        let found = self.matches(depth);
        self.lemma_short_matches_true();
        if !(short.len() > 0 && short.last().len >= self.nice()) {
            let best = self.best_short();
            let keys = Keys::four(self.stream, self.mask);
            let candidate = keys.previous(self.pos);
            keys.lemma_latest(keys.at(self.pos), self.pos);
            self.lemma_chain_matches_true(candidate, best, depth);
            let rest = self.chain_matches(candidate, best, depth);
            let n = short.len();
            assert(found == short + rest);
            assert forall|i: int, j: int| 0 <= i < j < found.len() implies found[i].len
                < found[j].len by {
                if i >= n {
                    assert(rest[i - n].len < rest[j - n].len);
                } else if j < n {
                    assert(short[i].len < short[j].len);
                } else {
                    assert(short[i].len <= short.last().len);
                    assert(rest[j - n].len > best);
                }
            }
            assert forall|i: int| 0 <= i < found.len() - 1 implies (#[trigger] found[i]).len
                < self.nice() by {
                if i < n {
                    assert(short[i].len <= short.last().len);
                } else {
                    assert(rest[i - n].len < self.nice());
                }
            }
        }
        if found.len() >= 2 {
            self.lemma_lengths_grow(found, found.len() - 2);
        }
    }

    /// The same bytes have the same hash, and the length of the match is at least their number.
    proof fn lemma_repeats(self, q: int, n: int)
        requires
            self.repeats(q, n),
            0 <= n <= self.match_len_max,
        ensures
            self.len_at(self.pos - q) >= n,
            n >= 2 ==> Keys::two(self.stream).at(q) == Keys::two(self.stream).at(self.pos),
            n >= 3 ==> Keys::three(self.stream).at(q) == Keys::three(self.stream).at(self.pos),
            n >= 4 ==> Keys::four(self.stream, self.mask).at(q) == Keys::four(
                self.stream,
                self.mask,
            ).at(self.pos),
    {
        let s = self.stream;
        let p = self.pos;
        assert forall|i: int| 0 <= i < n implies #[trigger] s[p + i] == s[p - (p - q) + i] by {}
        super::history::lemma_match_at_least(s, p, p - q, self.limit(), n);
        if n >= 2 {
            assert(s[p + 0] == s[q + 0]);
            assert(s[p + 1] == s[q + 1]);
        }
        if n >= 3 {
            assert(s[p + 2] == s[q + 2]);
        }
        if n >= 4 {
            assert(s[p + 3] == s[q + 3]);
        }
    }

    /// The `n` bytes at the position of the search are the same as those at `q`.
    pub open spec fn repeats(self, q: int, n: int) -> bool {
        super::history::repeats(self.stream, self.pos, q, n)
    }

    /// The chain from `candidate` on leads past none of its first `depth` positions that is longer
    /// than what it finds, unless it finds one that is long enough.
    #[verifier::spinoff_prover]
    #[verifier::rlimit(60)]
    proof fn lemma_chain_complete(self, candidate: int, best: int, depth: nat, q: int, n: int)
        requires
            self.can_start(),
            0 <= q <= candidate < self.pos,
            best >= 2,
            self.pos - q <= self.reach,
            n <= self.len_at(self.pos - q),
            ({
                let keys = Keys::four(self.stream, self.mask);
                &&& keys.at(q) == keys.at(candidate)
                &&& keys.count(keys.at(candidate), q, candidate + 1) <= depth
            }),
        ensures
            ({
                let found = self.chain_matches(candidate, best, depth);
                let last = if found.len() > 0 {
                    found.last().len
                } else {
                    best
                };
                last >= n || found.len() > 0 && last >= self.nice()
            }),
        decreases depth,
    {
        let keys = Keys::four(self.stream, self.mask);
        let key = keys.at(candidate);
        let next = keys.previous(candidate);
        let len = self.len_at(self.pos - candidate);
        keys.lemma_latest(key, candidate);
        assert(keys.count(key, q, candidate + 1) == keys.count(key, q, candidate) + 1);
        let less = (depth - 1) as nat;
        let longer = if len > best {
            len
        } else {
            best
        };
        self.lemma_chain_matches_true(next, longer, less);
        let rest = self.chain_matches(next, longer, less);
        let found = self.chain_matches(candidate, best, depth);
        if q < candidate {
            assert(next >= q);
            keys.lemma_count_skips(key, q, next + 1, candidate);
            self.lemma_chain_complete(next, longer, less, q, n);
        }
        if len <= best {
            assert(found == rest);
        } else if len < self.nice() {
            assert(found == seq![Match { len, dist: self.pos - candidate - 1 }] + rest);
            if rest.len() > 0 {
                assert(found.last() == rest.last());
                assert(rest.last().len > len);
            } else {
                assert(found.last().len == len);
            }
        } else {
            assert(found.last().len == len);
        }
        if rest.len() > 0 {
            assert(rest.last().len > longer);
        }
    }

    /// The last match is no shorter than the short ones.
    proof fn lemma_last_is_longest(self, depth: nat)
        requires
            self.can_start(),
            self.short_matches().len() > 0,
        ensures
            self.matches(depth).len() > 0,
            self.matches(depth).last().len >= self.short_matches().last().len,
    {
        let short = self.short_matches();
        self.lemma_short_matches_true();
        let keys = Keys::four(self.stream, self.mask);
        let candidate = keys.previous(self.pos);
        keys.lemma_latest(keys.at(self.pos), self.pos);
        self.lemma_chain_matches_true(candidate, self.best_short(), depth);
        let rest = self.chain_matches(candidate, self.best_short(), depth);
        let found = self.matches(depth);
        if found != short && rest.len() > 0 {
            assert(found.last() == rest.last());
            assert(rest.last().len > self.best_short());
        } else if found != short {
            assert(found =~= short);
        }
    }

    /// The last match is the last one from the chain, or else the last of the short ones.
    proof fn lemma_last_match(self, depth: nat, candidate: int)
        requires
            self.avail() >= HASHED_BYTES,
            candidate == Keys::four(self.stream, self.mask).previous(self.pos),
        ensures
            ({
                let short = self.short_matches();
                let rest = self.chain_matches(candidate, self.best_short(), depth);
                let found = self.matches(depth);
                if short.len() > 0 && short.last().len >= self.nice() || rest.len() == 0 {
                    found == short
                } else {
                    found.len() > 0 && found.last() == rest.last()
                }
            }),
    {
        let short = self.short_matches();
        let rest = self.chain_matches(candidate, self.best_short(), depth);
        if rest.len() == 0 {
            assert(short + rest =~= short);
        }
    }

    /// The candidate of the chain that comes first has the same hash, and so have all that follow.
    #[verifier::spinoff_prover]
    #[verifier::rlimit(60)]
    proof fn lemma_chain_of_position(self, depth: nat, q: int, n: int, candidate: int)
        requires
            self.can_start(),
            0 <= q < self.pos,
            self.pos - q <= self.reach,
            n <= self.len_at(self.pos - q),
            candidate == Keys::four(self.stream, self.mask).previous(self.pos),
            ({
                let keys = Keys::four(self.stream, self.mask);
                &&& keys.at(q) == keys.at(self.pos)
                &&& keys.count(keys.at(self.pos), q, self.pos) <= depth
            }),
        ensures
            ({
                let found = self.chain_matches(candidate, self.best_short(), depth);
                let last = if found.len() > 0 {
                    found.last().len
                } else {
                    self.best_short()
                };
                last >= n || found.len() > 0 && last >= self.nice()
            }),
    {
        let keys = Keys::four(self.stream, self.mask);
        let key = keys.at(self.pos);
        keys.lemma_latest(key, self.pos);
        assert(candidate >= q);
        keys.lemma_count_skips(key, q, candidate + 1, self.pos);
        self.lemma_chain_complete(candidate, self.best_short(), depth, q, n);
    }

    proof fn lemma_candidate_is_matched(self, depth: nat, q: int, n: int)
        requires
            self.can_start(),
            0 <= q < self.pos,
            self.pos - q <= self.reach,
            4 <= n <= self.len_at(self.pos - q),
            ({
                let keys = Keys::four(self.stream, self.mask);
                &&& keys.at(q) == keys.at(self.pos)
                &&& keys.count(keys.at(self.pos), q, self.pos) <= depth
            }),
        ensures
            self.matches(depth).len() > 0,
            self.matches(depth).last().len >= n || self.matches(depth).last().len >= self.nice(),
    {
        let candidate = Keys::four(self.stream, self.mask).previous(self.pos);
        self.lemma_last_match(depth, candidate);
        self.lemma_chain_of_position(depth, q, n, candidate);
        assert(self.nice() >= 3);
    }

    /// The longest match is found: if the `n` bytes at the position stood at `q` before, within
    /// reach, then the last match has `n` bytes or more, or at least the nice length. This holds
    /// of every `q` that is among the `depth` latest positions with the same hash of four bytes.
    pub proof fn lemma_longest_is_found(self, depth: nat, q: int, n: int)
        requires
            0 <= q < self.pos,
            self.pos - q <= self.reach,
            4 <= n <= self.match_len_max,
            self.pos + n <= self.stream.len(),
            forall|i: int|
                0 <= i < n ==> #[trigger] self.stream[self.pos + i] == self.stream[q + i],
            self.nice_len >= 3,
            ({
                let keys = Keys::four(self.stream, self.mask);
                keys.count(keys.at(self.pos), q, self.pos) <= depth
            }),
        ensures
            self.matches(depth).len() > 0,
            self.matches(depth).last().len >= n || self.matches(depth).last().len >= self.nice_len,
    {
        self.lemma_repeats(q, n);
        self.lemma_candidate_is_matched(depth, q, n);
    }

    /// The longest match is found wherever no more positions lie between than are tried, whatever
    /// their hashes are.
    pub proof fn lemma_near_match_is_found(self, depth: nat, q: int, n: int)
        requires
            0 <= q < self.pos,
            self.pos - q <= self.reach,
            self.pos - q <= depth,
            4 <= n <= self.match_len_max,
            self.pos + n <= self.stream.len(),
            forall|i: int|
                0 <= i < n ==> #[trigger] self.stream[self.pos + i] == self.stream[q + i],
            self.nice_len >= 3,
        ensures
            self.matches(depth).len() > 0,
            self.matches(depth).last().len >= n || self.matches(depth).last().len >= self.nice_len,
    {
        let keys = Keys::four(self.stream, self.mask);
        keys.lemma_count_at_most(keys.at(self.pos), q, self.pos);
        self.lemma_longest_is_found(depth, q, n);
    }

    /// A repetition of two bytes is found if no later position has the same hash of two bytes, and
    /// one of three bytes if no later position has the same hash of three bytes.
    #[verifier::spinoff_prover]
    #[verifier::rlimit(60)]
    pub proof fn lemma_short_match_is_found(self, depth: nat, q: int, n: int)
        requires
            0 <= q < self.pos,
            self.pos - q <= self.reach,
            self.pos + 4 <= self.stream.len(),
            2 <= n <= self.match_len_max,
            self.match_len_max >= 3,
            self.pos + n <= self.stream.len(),
            forall|i: int|
                0 <= i < n ==> #[trigger] self.stream[self.pos + i] == self.stream[q + i],
            self.nice_len >= 3,
            ({
                let two = Keys::two(self.stream);
                let three = Keys::three(self.stream);
                ||| forall|r: int| q < r < self.pos ==> #[trigger] two.at(r) != two.at(self.pos)
                ||| n >= 3 && forall|r: int|
                    q < r < self.pos ==> #[trigger] three.at(r) != three.at(self.pos)
            }),
        ensures
            self.matches(depth).len() > 0,
            self.matches(depth).last().len >= n || self.matches(depth).last().len >= self.nice_len,
    {
        let s = self.stream;
        let p = self.pos;
        let two = Keys::two(s);
        let three = Keys::three(s);
        self.lemma_repeats(q, n);
        self.lemma_short_matches_true();
        two.lemma_latest(two.at(p), p);
        three.lemma_latest(three.at(p), p);
        assert(s[p + 0] == s[q + 0]);
        let short = self.short_matches();
        let q2 = two.previous(p);
        let q3 = three.previous(p);
        let all_true = self.all_true(short);
        if q2 == q {
            assert(self.distance_to_latest(two) == Some(p - q));
        } else {
            assert(q3 == q);
            assert(self.distance_to_latest(three) == Some(p - q));
        }
        if q2 == q && q3 >= 0 && q3 != q2 && p - q3 <= self.reach && s[q3] == s[p] {
            // Otherwise the three bytes at `q` would be the same, too.
            three.lemma_same_key(p, q3);
            super::history::lemma_match_at_least(s, p, p - q3, self.limit(), 3);
            if n >= 3 {
                assert(three.at(q) == three.at(p));
                assert(s[p + 0] == s[q3 + 0]);
                assert(s[p + 1] == s[q3 + 1]);
                assert(two.at(q3) == two.at(p));
                assert(false);
            }
        }
        assert(short.len() > 0);
        assert(short.last().len >= n);
        self.lemma_last_is_longest(depth);
    }

    /// A match from the chain is longer than those at all later positions of the chain.
    #[verifier::spinoff_prover]
    #[verifier::rlimit(60)]
    proof fn lemma_chain_nearest(self, candidate: int, best: int, depth: nat, i: int, q: int)
        requires
            self.can_start(),
            candidate < self.pos,
            best >= 2,
            0 <= i < self.chain_matches(candidate, best, depth).len(),
            0 <= q <= candidate,
            self.pos - q <= self.chain_matches(candidate, best, depth)[i].dist,
            ({
                let keys = Keys::four(self.stream, self.mask);
                keys.at(q) == keys.at(candidate)
            }),
        ensures
            self.len_at(self.pos - q) < self.chain_matches(candidate, best, depth)[i].len,
        decreases depth,
    {
        let keys = Keys::four(self.stream, self.mask);
        let next = keys.previous(candidate);
        let len = self.len_at(self.pos - candidate);
        keys.lemma_latest(keys.at(candidate), candidate);
        let found = self.chain_matches(candidate, best, depth);
        let less = (depth - 1) as nat;
        self.lemma_chain_matches_true(candidate, best, depth);
        if len <= best {
            if q < candidate {
                self.lemma_chain_nearest(next, best, less, i, q);
            }
        } else {
            assert(found[0].dist == self.pos - candidate - 1);
            assert(i > 0);
            let rest = self.chain_matches(next, len, less);
            assert(found[i] == rest[i - 1]);
            assert(found[0].len < found[i].len);
            if q < candidate {
                self.lemma_chain_nearest(next, len, less, i - 1, q);
            }
        }
    }

    /// No position nearer than a match repeats as many bytes.
    #[verifier::spinoff_prover]
    #[verifier::rlimit(60)]
    pub proof fn lemma_nearest_is_found(self, depth: nat, i: int, q: int)
        requires
            0 <= self.pos,
            self.pos + 4 <= self.stream.len(),
            self.match_len_max >= 3,
            self.nice_len >= 3,
            0 <= i < self.matches(depth).len(),
            0 <= q < self.pos,
            self.pos - q <= self.matches(depth)[i].dist,
        ensures
            exists|k: int|
                0 <= k < self.matches(depth)[i].len && #[trigger] self.stream[self.pos + k]
                    != self.stream[q + k],
    {
        let s = self.stream;
        let p = self.pos;
        let found = self.matches(depth);
        let n = found[i].len;
        self.lemma_matches_true(depth);
        super::history::lemma_match_len(s, p, found[i].dist + 1, self.limit());
        if forall|k: int| 0 <= k < n ==> #[trigger] s[p + k] == s[q + k] {
            self.lemma_repeats(q, n);
            let two = Keys::two(s);
            let three = Keys::three(s);
            let keys = Keys::four(s, self.mask);
            two.lemma_latest(two.at(p), p);
            three.lemma_latest(three.at(p), p);
            keys.lemma_latest(keys.at(p), p);
            let short = self.short_matches();
            self.lemma_short_matches_true();
            if i < short.len() {
                assert(found[i] == short[i]);
                if p - (found[i].dist + 1) == two.previous(p) {
                    assert(two.at(q) != two.at(p));
                } else {
                    assert(p - (found[i].dist + 1) == three.previous(p));
                    three.lemma_same_key(p, three.previous(p));
                    super::history::lemma_match_at_least(
                        s,
                        p,
                        found[i].dist + 1,
                        self.limit(),
                        3,
                    );
                    assert(three.at(q) != three.at(p));
                }
            } else {
                let candidate = keys.previous(p);
                let best = self.best_short();
                self.lemma_chain_matches_true(candidate, best, depth);
                let j = i - short.len();
                let rest = self.chain_matches(candidate, best, depth);
                assert(found[i] == rest[j]);
                assert(rest[j].len > best);
                assert(q <= candidate);
                self.lemma_chain_nearest(candidate, best, depth, j, q);
            }
            assert(false);
        }
    }

    /// Each match is a repetition of as many bytes as it says, at its distance, and it ends where
    /// the bytes differ or no more are allowed. A later match is longer.
    pub proof fn lemma_matches_are_real(self, depth: nat, i: int)
        requires
            0 <= self.pos,
            self.pos + 4 <= self.stream.len(),
            self.match_len_max >= 3,
            self.nice_len >= 3,
            0 <= i < self.matches(depth).len(),
        ensures
            ({
                let m = self.matches(depth)[i];
                let q = self.pos - 1 - m.dist;
                &&& 0 <= q < self.pos
                &&& m.dist < self.reach
                &&& 2 <= m.len <= self.match_len_max
                &&& self.pos + m.len <= self.stream.len()
                &&& forall|k: int|
                    0 <= k < m.len ==> #[trigger] self.stream[self.pos + k] == self.stream[q + k]
                &&& m.len < self.match_len_max && self.pos + m.len < self.stream.len()
                    ==> self.stream[self.pos + m.len] != self.stream[q + m.len]
            }),
            i > 0 ==> self.matches(depth)[i - 1].len < self.matches(depth)[i].len,
    {
        self.lemma_matches_true(depth);
        let m = self.matches(depth)[i];
        super::history::lemma_match_len(self.stream, self.pos, m.dist + 1, self.limit());
        assert forall|k: int| 0 <= k < m.len implies #[trigger] self.stream[self.pos + k]
            == self.stream[self.pos - 1 - m.dist + k] by {
            assert(self.stream[self.pos + k] == self.stream[self.pos - (m.dist + 1) + k]);
        }
        if i > 0 {
            assert(self.matches(depth)[i - 1].len < self.matches(depth)[i].len);
        }
    }
}

} // verus!
