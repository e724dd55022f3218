//! Content search over a file read in chunks: whether the bytes read so far
//! contain a needle, with matches that span chunk boundaries found too.

use vstd::prelude::*;

verus! {

/// Size of the chunks a file is read in (64 KiB).
pub const CONTENT_BUFFER_BYTES: usize = 65536;

/// ASCII lowercase of one byte.
pub open spec fn lower_byte(b: u8) -> u8 {
    if 65 <= b <= 90 {
        (b + 32) as u8
    } else {
        b
    }
}

/// ASCII uppercase of one byte.
pub open spec fn upper_byte(b: u8) -> u8 {
    if 97 <= b <= 122 {
        (b - 32) as u8
    } else {
        b
    }
}

/// ASCII lowercase of bytes.
pub open spec fn lower_bytes(s: Seq<u8>) -> Seq<u8> {
    s.map_values(|b: u8| lower_byte(b))
}

/// `needle` occurs in `hay` at `i`.
pub open spec fn occurs_at(hay: Seq<u8>, needle: Seq<u8>, i: int) -> bool {
    0 <= i && i + needle.len() <= hay.len() && hay.subrange(i, i + needle.len()) == needle
}

/// `needle` occurs somewhere in `hay`.
pub open spec fn occurs(hay: Seq<u8>, needle: Seq<u8>) -> bool {
    exists|i: int| occurs_at(hay, needle, i)
}

/// Whether content `data` matches `needle`: never for an empty needle; a
/// one-byte needle matches that byte (either case of it when case does not
/// matter); a longer needle must occur in the data, lowercased first when
/// case does not matter (the needle is then expected in lowercase).
pub open spec fn content_found(data: Seq<u8>, needle: Seq<u8>, case_insensitive: bool) -> bool {
    if needle.len() == 0 {
        false
    } else if needle.len() == 1 {
        exists|i: int|
            0 <= i < data.len() && (if case_insensitive {
                #[trigger] data[i] == lower_byte(needle[0]) || data[i] == upper_byte(needle[0])
            } else {
                data[i] == needle[0]
            })
    } else if case_insensitive {
        occurs(lower_bytes(data), needle)
    } else {
        occurs(data, needle)
    }
}

/// The first occurrence of `needle` in `haystack`, by the Rabin-Karp
/// searcher of `memchr` (`rabinkarp::Finder::new` then `Finder::find`):
/// `Some(i)` for the first offset where the needle occurs, `None` when it
/// does not occur.
#[verifier::external_body]
fn rabin_karp_find(haystack: &[u8], needle: &[u8]) -> (r: Option<usize>)
    ensures
        match r {
            Some(i) => occurs_at(haystack@, needle@, i as int) && forall|j: int|
                0 <= j < i ==> !occurs_at(haystack@, needle@, j),
            None => !occurs(haystack@, needle@),
        },
{
    memchr::arch::all::rabinkarp::Finder::new(needle).find(haystack, needle)
}

/// Whether content read in chunks matches a needle so far.
pub struct ContentMatcher {
    needle: Vec<u8>,
    case_insensitive: bool,
    /// The last bytes seen (lowercased when case does not matter), kept so
    /// that a match spanning two chunks is found.
    carry: Vec<u8>,
    found: bool,
    seen: Ghost<Seq<u8>>,
}

impl ContentMatcher {
    /// All bytes fed so far.
    pub closed spec fn data(&self) -> Seq<u8> {
        self.seen@
    }

    /// The needle.
    pub closed spec fn needle_view(&self) -> Seq<u8> {
        self.needle@
    }

    /// Whether case is ignored.
    pub closed spec fn ignores_case(&self) -> bool {
        self.case_insensitive
    }

    /// The bytes searched: the data, lowercased when case does not matter.
    spec fn searched(&self) -> Seq<u8> {
        if self.case_insensitive {
            lower_bytes(self.seen@)
        } else {
            self.seen@
        }
    }

    /// Until a match is found, the carried bytes are the searched bytes'
    /// last ones, as many as a match spanning into the next chunk can need.
    pub closed spec fn wf(&self) -> bool {
        let s = self.searched();
        let keep = if self.needle@.len() == 0 {
            0
        } else {
            (self.needle@.len() - 1) as int
        };
        let k = if s.len() < keep {
            s.len() as int
        } else {
            keep
        };
        &&& !self.found ==> self.carry@ == s.subrange(s.len() - k, s.len() as int)
        &&& self.found == content_found(self.seen@, self.needle@, self.case_insensitive)
    }

    /// A matcher for `needle` that has seen nothing yet.
    pub fn new(needle: &[u8], case_insensitive: bool) -> (r: Self)
        ensures
            r.wf(),
            r.data() == Seq::<u8>::empty(),
            r.needle_view() == needle@,
            r.ignores_case() == case_insensitive,
    {
        let mut v: Vec<u8> = Vec::new();
        let mut i: usize = 0;
        while i < needle.len()
            invariant
                i <= needle@.len(),
                v@ == needle@.subrange(0, i as int),
            decreases needle@.len() - i,
        {
            v.push(needle[i]);
            i = i + 1;
        }
        assert(v@ =~= needle@);
        let r = ContentMatcher {
            needle: v,
            case_insensitive,
            carry: Vec::new(),
            found: false,
            seen: Ghost(Seq::empty()),
        };
        assert(r.carry@ =~= r.searched().subrange(0, 0));
        r
    }

    /// Whether the data fed so far matches.
    pub fn is_found(&self) -> (r: bool)
        requires
            self.wf(),
        ensures
            r == content_found(self.data(), self.needle_view(), self.ignores_case()),
    {
        self.found
    }

    /// Feeds the next chunk; true when the data fed so far matches.
    pub fn feed(&mut self, chunk: &[u8]) -> (r: bool)
        requires
            old(self).wf(),
        ensures
            final(self).wf(),
            final(self).data() == old(self).data() + chunk@,
            final(self).needle_view() == old(self).needle_view(),
            final(self).ignores_case() == old(self).ignores_case(),
            r == content_found(final(self).data(), final(self).needle_view(), final(self).ignores_case()),
    {
        let ghost d0 = self.seen@;
        let ghost d1 = d0 + chunk@;
        if self.found {
            proof {
                lemma_found_grows(d0, chunk@, self.needle@, self.case_insensitive);
            }
            self.seen = Ghost(d1);
            return true;
        }
        let n = self.needle.len();
        if n == 0 {
            self.seen = Ghost(d1);
            proof {
                assert(self.searched().subrange(self.searched().len() as int, self.searched().len() as int) =~= Seq::<u8>::empty());
                assert(old(self).searched().subrange(old(self).searched().len() as int, old(self).searched().len() as int) =~= Seq::<u8>::empty());
            }
            return false;
        }
        if n == 1 {
            let target = self.needle[0];
            let lo = ascii_lower(target);
            let up = ascii_upper(target);
            let ci = self.case_insensitive;
            let mut hit = false;
            let mut i: usize = 0;
            while i < chunk.len() && !hit
                invariant
                    i <= chunk@.len(),
                    lo == lower_byte(target),
                    up == upper_byte(target),
                    hit ==> i < chunk@.len() && (if ci {
                        chunk@[i as int] == lo || chunk@[i as int] == up
                    } else {
                        chunk@[i as int] == target
                    }),
                    forall|j: int| 0 <= j < i ==> !(if ci {
                        chunk@[j] == lo || chunk@[j] == up
                    } else {
                        chunk@[j] == target
                    }),
                decreases chunk@.len() - i, (if hit { 0int } else { 1int }),
            {
                let c = chunk[i];
                hit = if ci {
                    c == lo || c == up
                } else {
                    c == target
                };
                if !hit {
                    i = i + 1;
                }
            }
            self.found = hit;
            self.seen = Ghost(d1);
            proof {
                assert(self.searched().subrange(self.searched().len() as int, self.searched().len() as int) =~= Seq::<u8>::empty());
                assert(old(self).searched().subrange(old(self).searched().len() as int, old(self).searched().len() as int) =~= Seq::<u8>::empty());
                if self.found {
                    assert(d1[d0.len() + i] == chunk@[i as int]);
                } else {
                    assert(i == chunk@.len());
                    assert forall|j: int| 0 <= j < d1.len() implies !(if self.case_insensitive {
                        #[trigger] d1[j] == lower_byte(self.needle@[0]) || d1[j] == upper_byte(self.needle@[0])
                    } else {
                        d1[j] == self.needle@[0]
                    }) by {
                        if j >= d0.len() {
                            assert(d1[j] == chunk@[j - d0.len()]);
                        } else {
                            assert(d1[j] == d0[j]);
                        }
                    }
                }
            }
            return self.found;
        }
        let mut window: Vec<u8> = Vec::new();
        let mut i: usize = 0;
        while i < self.carry.len()
            invariant
                i <= self.carry@.len(),
                window@ == self.carry@.subrange(0, i as int),
            decreases self.carry@.len() - i,
        {
            window.push(self.carry[i]);
            i = i + 1;
        }
        let mut i: usize = 0;
        while i < chunk.len()
            invariant
                i <= chunk@.len(),
                window@ == self.carry@ + (if self.case_insensitive {
                    lower_bytes(chunk@.subrange(0, i as int))
                } else {
                    chunk@.subrange(0, i as int)
                }),
            decreases chunk@.len() - i,
        {
            let b = if self.case_insensitive {
                ascii_lower(chunk[i])
            } else {
                chunk[i]
            };
            window.push(b);
            proof {
                assert(chunk@.subrange(0, i + 1) =~= chunk@.subrange(0, i as int).push(chunk@[i as int]));
                assert(lower_bytes(chunk@.subrange(0, i + 1)) =~= lower_bytes(chunk@.subrange(0, i as int)).push(
                    lower_byte(chunk@[i as int]),
                ));
            }
            i = i + 1;
        }
        proof {
            assert(chunk@.subrange(0, chunk@.len() as int) =~= chunk@);
        }
        let hit = rabin_karp_find(window.as_slice(), self.needle.as_slice()).is_some();
        let keep = n - 1;
        let start = if window.len() < keep {
            0
        } else {
            window.len() - keep
        };
        let mut carry: Vec<u8> = Vec::new();
        let mut j: usize = start;
        while j < window.len()
            invariant
                start <= j <= window@.len(),
                carry@ == window@.subrange(start as int, j as int),
            decreases window@.len() - j,
        {
            carry.push(window[j]);
            j = j + 1;
        }
        self.carry = carry;
        self.found = hit;
        self.seen = Ghost(d1);
        proof {
            self.lemma_window(d0, chunk@, window@, start as int);
        }
        hit
    }

    /// After `chunk` is added, the carry of the new data is the end of the
    /// window made of the old carry and the chunk, and the window holds a
    /// match exactly when the new data does.
    proof fn lemma_window(&self, d0: Seq<u8>, chunk: Seq<u8>, window: Seq<u8>, start: int)
        requires
            self.seen@ == d0 + chunk,
            self.needle@.len() >= 2,
            !content_found(d0, self.needle@, self.case_insensitive),
            ({
                let s0 = if self.case_insensitive {
                    lower_bytes(d0)
                } else {
                    d0
                };
                let keep = self.needle@.len() - 1;
                let k = if s0.len() < keep {
                    s0.len() as int
                } else {
                    keep as int
                };
                window == s0.subrange(s0.len() - k, s0.len() as int) + (if self.case_insensitive {
                    lower_bytes(chunk)
                } else {
                    chunk
                })
            }),
            start == (if window.len() < self.needle@.len() - 1 {
                0
            } else {
                window.len() - (self.needle@.len() - 1)
            }),
            self.carry@ == window.subrange(start, window.len() as int),
            self.found == occurs(window, self.needle@),
        ensures
            self.wf(),
    {
        let ci = self.case_insensitive;
        let nd = self.needle@;
        let n = nd.len();
        let s0 = if ci {
            lower_bytes(d0)
        } else {
            d0
        };
        let tc = if ci {
            lower_bytes(chunk)
        } else {
            chunk
        };
        let s1 = self.searched();
        assert(s1 =~= s0 + tc) by {
            if ci {
                assert(lower_bytes(d0 + chunk) =~= lower_bytes(d0) + lower_bytes(chunk));
            }
        }
        let keep = n - 1;
        let k = if s0.len() < keep {
            s0.len() as int
        } else {
            keep as int
        };
        let off = s0.len() - k;
        assert(window =~= s1.subrange(off, s1.len() as int));
        assert(!occurs(s0, nd));
        // A match in the window is a match in the data.
        if occurs(window, nd) {
            let i = choose|i: int| occurs_at(window, nd, i);
            assert(s1.subrange(off + i, off + i + n) =~= window.subrange(i, i + n));
            assert(occurs_at(s1, nd, off + i));
        }
        // A match in the data ends in the new part, so it lies in the window.
        if occurs(s1, nd) {
            let p = choose|p: int| occurs_at(s1, nd, p);
            if p + n <= s0.len() {
                assert(s0.subrange(p, p + n) =~= s1.subrange(p, p + n));
                assert(occurs_at(s0, nd, p));
            } else {
                assert(p >= off);
                assert(window.subrange(p - off, p - off + n) =~= s1.subrange(p, p + n));
                assert(occurs_at(window, nd, p - off));
            }
        }
        assert(self.found == content_found(self.seen@, nd, ci));
        let k1 = if s1.len() < keep {
            s1.len() as int
        } else {
            keep as int
        };
        assert(self.carry@ =~= s1.subrange(s1.len() - k1, s1.len() as int));
    }
}

/// Once the data matches, more data still matches.
proof fn lemma_found_grows(d0: Seq<u8>, more: Seq<u8>, needle: Seq<u8>, ci: bool)
    requires
        content_found(d0, needle, ci),
    ensures
        content_found(d0 + more, needle, ci),
{
    let d1 = d0 + more;
    if needle.len() == 1 {
        let i = choose|i: int|
            0 <= i < d0.len() && (if ci {
                #[trigger] d0[i] == lower_byte(needle[0]) || d0[i] == upper_byte(needle[0])
            } else {
                d0[i] == needle[0]
            });
        assert(d1[i] == d0[i]);
    } else if needle.len() > 1 {
        let s0 = if ci {
            lower_bytes(d0)
        } else {
            d0
        };
        let s1 = if ci {
            lower_bytes(d1)
        } else {
            d1
        };
        let p = choose|p: int| occurs_at(s0, needle, p);
        assert(s1.subrange(p, p + needle.len()) =~= s0.subrange(p, p + needle.len()));
        assert(occurs_at(s1, needle, p));
    }
}

/// ASCII lowercase of one byte.
fn ascii_lower(b: u8) -> (r: u8)
    ensures
        r == lower_byte(b),
{
    if 65 <= b && b <= 90 {
        b + 32
    } else {
        b
    }
}

/// ASCII uppercase of one byte.
fn ascii_upper(b: u8) -> (r: u8)
    ensures
        r == upper_byte(b),
{
    if 97 <= b && b <= 122 {
        b - 32
    } else {
        b
    }
}

} // verus!
