//! A cache of aligned chunks of a file, for reading its metadata.
//!
//! Aligned pieces are fetched on demand and kept, so the header of a file with
//! its directories in front costs one chunk, and directories at its end a couple
//! more.

use std::collections::HashMap;

use vstd::prelude::*;
use vstd::std_specs::hash::*;

use crate::text::{decimal, decimal_u64, join5};

verus! {

broadcast use group_hash_axioms;

/// The size of a chunk.
pub const CHUNK: u64 = 262_144;

/// The chunks that were fetched, by their number.
pub struct ChunkCache {
    pub chunks: HashMap<u64, Vec<u8>>,
}

/// The number of bytes of chunk `c` that a request up to `end` needs.
pub open spec fn needed(c: int, end: int) -> int {
    if end < (c + 1) * CHUNK {
        end - c * CHUNK
    } else {
        CHUNK as int
    }
}

/// The first and last chunk of a request that is not empty.
pub open spec fn first_chunk(start: int) -> int {
    start / (CHUNK as int)
}

/// The last chunk of a request that is not empty.
pub open spec fn last_chunk(end: int) -> int {
    (end - 1) / (CHUNK as int)
}

/// The bytes of a chunk agree with those of a file.
pub open spec fn chunk_of(file: Seq<u8>, c: int, b: Seq<u8>) -> bool {
    &&& b.len() <= CHUNK
    &&& c * CHUNK + b.len() <= file.len()
    &&& b == file.subrange(c * CHUNK, c * CHUNK + b.len())
}

impl ChunkCache {
    /// The cached chunks are chunks of `file`.
    pub open spec fn holds(&self, file: Seq<u8>) -> bool {
        forall|c: u64| #[trigger]
            self.chunks@.contains_key(c) ==> chunk_of(file, c as int, self.chunks@[c]@)
    }

    /// Enough of chunk `c` is cached for a request up to `end`.
    pub open spec fn has_chunk(&self, c: u64, end: int) -> bool {
        self.chunks@.contains_key(c) && self.chunks@[c]@.len() >= needed(c as int, end)
    }

    /// Chunk `c` of the file is cached as a whole.
    pub open spec fn holds_whole(&self, file: Seq<u8>, c: u64) -> bool {
        self.chunks@.contains_key(c) && self.chunks@[c]@ == file.subrange(
            c * CHUNK,
            (c + 1) * CHUNK,
        )
    }

    /// Nothing cached.
    pub fn new() -> (r: ChunkCache)
        ensures
            r.chunks@ == Map::<u64, Vec<u8>>::empty(),
            forall|file: Seq<u8>| r.holds(file),
    {
        ChunkCache { chunks: HashMap::new() }
    }

    /// The next chunk from `from` on that has to be fetched for the request
    /// `start..end`, with the number of its bytes that the request needs.
    pub fn next_missing(&self, start: u64, end: u64, from: u64) -> (r: Option<(u64, u64)>)
        requires
            start < end,
            first_chunk(start as int) <= from,
        ensures
            match r {
                Some((c, need)) => {
                    &&& from <= c <= last_chunk(end as int)
                    &&& need == needed(c as int, end as int)
                    &&& 0 < need <= CHUNK
                    &&& !self.has_chunk(c, end as int)
                    &&& forall|k: u64| from <= k < c ==> #[trigger] self.has_chunk(k, end as int)
                },
                None => forall|k: u64|
                    from <= k <= last_chunk(end as int) ==> #[trigger] self.has_chunk(
                        k,
                        end as int,
                    ),
            },
    {
        let last: u64 = (end - 1) / CHUNK;
        let mut c: u64 = from;
        while c <= last
            invariant
                start < end,
                from <= c,
                last == last_chunk(end as int),
                forall|k: u64| from <= k < c ==> #[trigger] self.has_chunk(k, end as int),
            decreases last + 1 - c,
        {
            let base: u64 = c * CHUNK;
            let need: u64 = if end - base < CHUNK {
                end - base
            } else {
                CHUNK
            };
            assert(need == needed(c as int, end as int));
            let enough: bool = match self.chunks.get(&c) {
                Some(b) => b.len() as u64 >= need,
                None => false,
            };
            if !enough {
                return Some((c, need));
            }
            c = c + 1;
        }
        None
    }

    /// Keeps a fetched chunk.
    pub fn insert(&mut self, c: u64, bytes: Vec<u8>)
        ensures
            final(self).chunks@ == old(self).chunks@.insert(c, bytes),
            forall|file: Seq<u8>|
                old(self).holds(file) && chunk_of(file, c as int, bytes@) ==> final(self).holds(
                    file,
                ),
    {
        self.chunks.insert(c, bytes);
    }

    /// The bytes of `start..end`; none where a chunk is missing or too short.
    pub fn assemble(&self, start: u64, end: u64) -> (r: Option<Vec<u8>>)
        requires
            start < end,
        ensures
            r is Some <==> forall|k: u64|
                first_chunk(start as int) <= k <= last_chunk(end as int)
                    ==> #[trigger] self.has_chunk(k, end as int),
            r matches Some(v) ==> v@.len() == end - start && forall|file: Seq<u8>|
                #[trigger] self.holds(file) ==> v@ == file.subrange(start as int, end as int),
    {
        let first: u64 = start / CHUNK;
        let last: u64 = (end - 1) / CHUNK;
        let mut out: Vec<u8> = Vec::new();
        let mut c: u64 = first;
        while c <= last
            invariant
                start < end,
                first == first_chunk(start as int),
                last == last_chunk(end as int),
                first <= c <= last + 1,
                forall|k: u64| first <= k < c ==> #[trigger] self.has_chunk(k, end as int),
                out@.len() == filled(start as int, end as int, c as int),
                forall|file: Seq<u8>|
                    #[trigger] self.holds(file) ==> c == first || (start + out@.len()
                        <= file.len() && out@ == file.subrange(
                        start as int,
                        start + out@.len(),
                    )),
            decreases last + 1 - c,
        {
            let base: u64 = c * CHUNK;
            let lo: u64 = if start > base {
                start - base
            } else {
                0
            };
            let hi: u64 = if end - base < CHUNK {
                end - base
            } else {
                CHUNK
            };
            assert(hi == needed(c as int, end as int));
            match self.chunks.get(&c) {
                None => {
                    assert(!self.has_chunk(c, end as int));
                    return None;
                },
                Some(b) => {
                    if hi > b.len() as u64 {
                        assert(!self.has_chunk(c, end as int));
                        return None;
                    }
                    let ghost before = out@;
                    let mut i: usize = lo as usize;
                    while i < hi as usize
                        invariant
                            lo <= i <= hi <= b@.len(),
                            out@ == before + b@.subrange(lo as int, i as int),
                        decreases hi - i,
                    {
                        out.push(b[i]);
                        assert(b@.subrange(lo as int, i + 1) == b@.subrange(
                            lo as int,
                            i as int,
                        ).push(b@[i as int]));
                        i = i + 1;
                    }
                    proof {
                        assert forall|file: Seq<u8>| #[trigger] self.holds(file) implies start
                            + out@.len() <= file.len() && out@ == file.subrange(
                            start as int,
                            start + out@.len(),
                        ) by {
                            assert(chunk_of(file, c as int, self.chunks@[c]@));
                            assert(start + before.len() == base + lo);
                            assert(out@ =~= file.subrange(start as int, start + out@.len()));
                        }
                        assert(self.has_chunk(c, end as int));
                    }
                },
            }
            c = c + 1;
        }
        Some(out)
    }
}

/// The bytes of a request that the chunks before `c` give.
pub open spec fn filled(start: int, end: int, c: int) -> int {
    if c * CHUNK <= start {
        0
    } else if c * CHUNK >= end {
        end - start
    } else {
        c * CHUNK - start
    }
}

/// A chunk of a request is missing, and `a..b` is what is read of it: the whole
/// chunk, or as much of it as the request needs.
pub open spec fn read_for(cache: ChunkCache, start: int, end: int, a: u64, b: u64) -> bool {
    exists|c: u64|
        {
            &&& first_chunk(start) <= c <= last_chunk(end)
            &&& !#[trigger] cache.has_chunk(c, end)
            &&& a == c * CHUNK
            &&& b == a + CHUNK || b == a + needed(c as int, end)
        }
}

/// A reader of `file`: it gives bytes of the range it is asked for, all of them
/// where the range lies in the file, and fails only past its end.
pub open spec fn reads<E, R: Fn(u64, u64) -> Result<Vec<u8>, E>>(read: R, file: Seq<u8>) -> bool {
    &&& file.len() <= u64::MAX
    &&& forall|a: u64, b: u64, r: Result<Vec<u8>, E>|
        #![trigger call_ensures(read, (a, b), r)]
        a <= b && call_ensures(read, (a, b), r) ==> match r {
            Ok(v) => {
                &&& v@.len() <= b - a
                &&& a + v@.len() <= file.len()
                &&& v@ == file.subrange(a as int, a + v@.len())
                &&& b <= file.len() ==> v@.len() == b - a
            },
            Err(_) => b > file.len(),
        }
}

/// Why bytes could not be fetched.
pub enum FetchError<E> {
    /// The reader failed.
    Read(E),
    /// The file ends before the range does.
    BeyondEnd,
}

/// The reply to a read of a whole chunk, if it holds the bytes that are needed of
/// it; a chunk that runs past the end of the file may be refused.
pub fn full_enough(reply: Option<Vec<u8>>, need: u64) -> (r: Option<Vec<u8>>)
    ensures
        r == (if reply matches Some(b) && b@.len() >= need {
            reply
        } else {
            None
        }),
{
    match reply {
        Some(b) => if b.len() as u64 >= need {
            Some(b)
        } else {
            None
        },
        None => None,
    }
}

fn ok_bytes<E>(r: Result<Vec<u8>, E>) -> (o: Option<Vec<u8>>)
    ensures
        o == (match r {
            Ok(b) => Some(b),
            Err(_) => None,
        }),
{
    match r {
        Ok(b) => Some(b),
        Err(_) => None,
    }
}

impl ChunkCache {
    /// The bytes `start..end` of a file, through the cache: each chunk that is
    /// missing is read as a whole, or up to the end of the request where that
    /// fails or falls short.
    ///
    /// Only missing chunks are read. Over a reader of a file, the bytes are those
    /// of the file, a range past its end is refused, and each missing chunk that
    /// lies in the file is kept whole, so that later requests near by cost nothing.
    pub fn fetch<E, R: Fn(u64, u64) -> Result<Vec<u8>, E>>(
        &mut self,
        start: u64,
        end: u64,
        read: &R,
    ) -> (r: Result<Vec<u8>, FetchError<E>>)
        requires
            start < end ==> forall|a: u64, b: u64| #[trigger]
                read_for(*old(self), start as int, end as int, a, b) ==> call_requires(
                    read,
                    (a, b),
                ),
        ensures
            forall|file: Seq<u8>|
                old(self).holds(file) && #[trigger] reads(*read, file) && start < end ==> {
                    &&& final(self).holds(file)
                    &&& r is Ok <==> end <= file.len()
                    &&& r matches Ok(v) ==> v@ == file.subrange(start as int, end as int)
                    &&& forall|k: u64|
                        first_chunk(start as int) <= k <= last_chunk(end as int) && !old(
                            self,
                        ).has_chunk(k, end as int) && (k + 1) * CHUNK <= file.len()
                            ==> #[trigger] final(self).holds_whole(file, k)
                },
            start < end ==> match r {
                Ok(v) => v@.len() == end - start && forall|k: u64|
                    first_chunk(start as int) <= k <= last_chunk(end as int)
                        ==> #[trigger] final(self).has_chunk(k, end as int),
                Err(FetchError::BeyondEnd) => exists|k: u64|
                    first_chunk(start as int) <= k <= last_chunk(end as int)
                        && !#[trigger] final(self).has_chunk(k, end as int),
                Err(FetchError::Read(e)) => exists|a: u64, b: u64| #[trigger]
                    read_for(*old(self), start as int, end as int, a, b) && call_ensures(
                        *read,
                        (a, b),
                        Err::<Vec<u8>, E>(e),
                    ),
            },
            start >= end ==> (r matches Ok(v) && v@.len() == 0) && final(self).chunks@ == old(
                self,
            ).chunks@,
            forall|k: u64| #[trigger]
                old(self).has_chunk(k, end as int) ==> final(self).chunks@.contains_key(k)
                    && final(self).chunks@[k] == old(self).chunks@[k],
    {
        if start >= end {
            return Ok(Vec::new());
        }
        let mut at: u64 = start / CHUNK;
        let ghost first = at;
        loop
            invariant
                start < end,
                first == first_chunk(start as int),
                first <= at <= last_chunk(end as int) + 1,
                forall|a: u64, b: u64| #[trigger]
                    read_for(*old(self), start as int, end as int, a, b) ==> call_requires(
                        read,
                        (a, b),
                    ),
                forall|k: u64| at <= k ==> (#[trigger] self.chunks@.contains_key(k) <==> old(
                    self,
                ).chunks@.contains_key(k)),
                forall|k: u64|
                    at <= k && #[trigger] self.chunks@.contains_key(k) ==> self.chunks@[k] == old(
                        self,
                    ).chunks@[k],
                forall|k: u64| first <= k < at ==> #[trigger] self.chunks@.contains_key(k),
                forall|k: u64| #[trigger]
                    old(self).has_chunk(k, end as int) ==> self.chunks@.contains_key(k)
                        && self.chunks@[k] == old(self).chunks@[k],
                forall|file: Seq<u8>|
                    old(self).holds(file) && #[trigger] reads(*read, file) ==> self.holds(file)
                        && (end <= file.len() ==> forall|k: u64|
                        first <= k < at ==> #[trigger] self.has_chunk(k, end as int)),
                forall|file: Seq<u8>, k: u64|
                    old(self).holds(file) && reads(*read, file) && first <= k < at && !old(
                        self,
                    ).has_chunk(k, end as int) && (k + 1) * CHUNK <= file.len()
                        ==> #[trigger] self.holds_whole(file, k),
            ensures
                forall|k: u64|
                    first <= k <= last_chunk(end as int) ==> #[trigger] self.chunks@.contains_key(
                        k,
                    ),
                forall|k: u64| #[trigger]
                    old(self).has_chunk(k, end as int) ==> self.chunks@.contains_key(k)
                        && self.chunks@[k] == old(self).chunks@[k],
                forall|file: Seq<u8>|
                    old(self).holds(file) && #[trigger] reads(*read, file) ==> self.holds(file)
                        && (end <= file.len() ==> forall|k: u64|
                        first <= k <= last_chunk(end as int) ==> #[trigger] self.has_chunk(
                            k,
                            end as int,
                        )),
                forall|file: Seq<u8>, k: u64|
                    old(self).holds(file) && reads(*read, file) && first <= k <= last_chunk(
                        end as int,
                    ) && !old(self).has_chunk(k, end as int) && (k + 1) * CHUNK <= file.len()
                        ==> #[trigger] self.holds_whole(file, k),
            decreases last_chunk(end as int) + 1 - at,
        {
            let ghost before = *self;
            match self.next_missing(start, end, at) {
                None => {
                    proof {
                        assert forall|k: u64| first <= k <= last_chunk(end as int) implies
                            #[trigger] self.chunks@.contains_key(k) by {
                            if at <= k {
                                assert(self.has_chunk(k, end as int));
                            }
                        }
                        assert forall|k: u64| at <= k <= last_chunk(end as int) implies
                            #[trigger] old(self).has_chunk(k, end as int) by {
                            assert(self.has_chunk(k, end as int));
                            assert(self.chunks@.contains_key(k));
                        }
                    }
                    break;
                },
                Some((c, need)) => {
                    let base: u64 = c * CHUNK;
                    proof {
                        assert(!old(self).has_chunk(c, end as int)) by {
                            if old(self).chunks@.contains_key(c) {
                                assert(self.chunks@.contains_key(c));
                            }
                        }
                        let s = start as int;
                        let e = end as int;
                        if base + CHUNK <= u64::MAX {
                            assert(read_for(*old(self), s, e, base, (base + CHUNK) as u64));
                        }
                        assert(read_for(*old(self), s, e, base, (base + need) as u64));
                    }
                    let whole: Option<Vec<u8>> = match base.checked_add(CHUNK) {
                        Some(to) => ok_bytes(read(base, to)),
                        None => None,
                    };
                    let ghost reply = whole;
                    let bytes: Vec<u8> = match full_enough(whole, need) {
                        Some(b) => b,
                        None => match read(base, base + need) {
                            Ok(b) => b,
                            Err(e) => {
                                proof {
                                    assert forall|file: Seq<u8>|
                                        old(self).holds(file) && #[trigger] reads(
                                            *read,
                                            file,
                                        ) implies base + need > file.len() by {
                                        assert(call_ensures(
                                            *read,
                                            (base, (base + need) as u64),
                                            Err::<Vec<u8>, E>(e),
                                        ));
                                    }
                                    assert forall|file: Seq<u8>, k: u64|
                                        old(self).holds(file) && reads(*read, file) && first <= k
                                            <= last_chunk(end as int) && !old(self).has_chunk(
                                            k,
                                            end as int,
                                        ) && (k + 1) * CHUNK
                                            <= file.len() implies #[trigger] self.holds_whole(
                                        file,
                                        k,
                                    ) by {
                                        if at <= k && k < c {
                                            assert(self.has_chunk(k, end as int));
                                            assert(self.chunks@.contains_key(k));
                                        }
                                    }
                                }
                                return Err(FetchError::Read(e));
                            },
                        },
                    };
                    let ghost kept = bytes@;
                    self.insert(c, bytes);
                    proof {
                        assert forall|file: Seq<u8>|
                            old(self).holds(file) && #[trigger] reads(*read, file) implies
                            self.holds(file) && (end <= file.len() ==> forall|k: u64|
                            first <= k < c + 1 ==> #[trigger] self.has_chunk(k, end as int)) by {
                            assert(before.holds(file));
                            assert(chunk_of(file, c as int, kept));
                            if end <= file.len() {
                                assert forall|k: u64| first <= k < c + 1 implies
                                    #[trigger] self.has_chunk(k, end as int) by {
                                    if k < c {
                                        assert(before.has_chunk(k, end as int));
                                    }
                                }
                            }
                        }
                        assert forall|file: Seq<u8>, k: u64|
                            old(self).holds(file) && reads(*read, file) && first <= k < c + 1
                                && !old(self).has_chunk(k, end as int) && (k + 1) * CHUNK
                                <= file.len() implies #[trigger] self.holds_whole(file, k) by {
                            if k < at {
                                assert(before.holds_whole(file, k));
                            } else if k < c {
                                assert(before.has_chunk(k, end as int));
                                assert(before.chunks@.contains_key(k));
                            } else {
                                assert(reply is Some);
                                assert(kept == file.subrange(k * CHUNK, (k + 1) * CHUNK));
                            }
                        }
                        assert forall|k: u64| first <= k < c + 1 implies
                            #[trigger] self.chunks@.contains_key(k) by {
                            if at <= k && k < c {
                                assert(before.has_chunk(k, end as int));
                            }
                        }
                    }
                    at = c + 1;
                },
            }
        }
        match self.assemble(start, end) {
            Some(v) => {
                proof {
                    let last = last_chunk(end as int) as u64;
                    assert(self.has_chunk(last, end as int));
                    assert forall|file: Seq<u8>|
                        old(self).holds(file) && #[trigger] reads(*read, file) implies end
                        <= file.len() by {
                        assert(self.holds(file));
                        assert(chunk_of(file, last as int, self.chunks@[last]@));
                    }
                }
                Ok(v)
            },
            None => {
                proof {
                    assert forall|file: Seq<u8>|
                        old(self).holds(file) && #[trigger] reads(*read, file) implies end
                        > file.len() by {
                        let k = choose|k: u64|
                            first_chunk(start as int) <= k <= last_chunk(end as int)
                                && !#[trigger] self.has_chunk(k, end as int);
                        assert(!self.has_chunk(k, end as int));
                    }
                }
                Err(FetchError::BeyondEnd)
            },
        }
    }
}

/// The text of the error for a request beyond the end of the file.
pub fn beyond_end(start: u64, end: u64) -> (r: String)
    ensures
        r@ == "metadata range "@ + decimal(start as nat) + ".."@ + decimal(end as nat)
            + " beyond end of file"@,
{
    let a = decimal_u64(start);
    let b = decimal_u64(end);
    join5("metadata range ", a.as_str(), "..", b.as_str(), " beyond end of file")
}

/// What was fetched once is not read again: after a fetch of `start..end`, no
/// chunk is missing for any range inside it.
pub proof fn fetched_bytes_are_not_read_again(
    cache: ChunkCache,
    start: int,
    end: int,
    s: int,
    e: int,
    a: u64,
    b: u64,
)
    requires
        0 <= start <= s < e <= end,
        forall|k: u64|
            first_chunk(start) <= k <= last_chunk(end) ==> #[trigger] cache.has_chunk(k, end),
    ensures
        !read_for(cache, s, e, a, b),
{
    if read_for(cache, s, e, a, b) {
        let c = choose|c: u64|
            {
                &&& first_chunk(s) <= c <= last_chunk(e)
                &&& !#[trigger] cache.has_chunk(c, e)
                &&& a == c * CHUNK
                &&& b == a + CHUNK || b == a + needed(c as int, e)
            };
        assert(cache.has_chunk(c, end));
    }
}

/// A chunk holds 262144 bytes, and a request needs the chunks from that of its first
/// byte to that of its last; of the last it needs the bytes up to its end.
pub proof fn requests_need_the_chunks_of_their_bytes(start: int, end: int, at: int)
    requires
        0 <= start <= at < end,
    ensures
        first_chunk(start) == start / 262144,
        last_chunk(end) == (end - 1) / 262144,
        first_chunk(start) <= at / 262144 <= last_chunk(end),
        at % 262144 < needed(at / 262144, end) <= 262144,
        at / 262144 < last_chunk(end) ==> needed(at / 262144, end) == 262144,
        needed(last_chunk(end), end) == (end - 1) % 262144 + 1,
{
}

} // verus!
