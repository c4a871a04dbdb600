//! The streaming line decoder: an incremental buffer over a byte stream that
//! hands out one newline-terminated line at a time, and distinguishes "no
//! complete line yet" from a delivered line so that a growing file can be
//! tailed.
use vstd::prelude::*;

verus! {

/// Position of the first newline byte in `s`, or a negative value when `s`
/// holds none.
pub open spec fn first_nl(s: Seq<u8>) -> int
    decreases s.len(),
{
    if s.len() == 0 {
        -1
    } else if s[0] == 10 {
        0
    } else {
        let r = first_nl(s.skip(1));
        if r < 0 {
            -1
        } else {
            r + 1
        }
    }
}

/// What `first_nl` means position by position.
pub proof fn lemma_first_nl(s: Seq<u8>)
    ensures
        first_nl(s) >= 0 ==> first_nl(s) < s.len() && s[first_nl(s)] == 10 && forall|j: int|
            0 <= j < first_nl(s) ==> s[j] != 10,
        first_nl(s) < 0 ==> forall|j: int| 0 <= j < s.len() ==> s[j] != 10,
    decreases s.len(),
{
    if s.len() > 0 && s[0] != 10 {
        lemma_first_nl(s.skip(1));
        let r = first_nl(s.skip(1));
        if r >= 0 {
            assert(s[first_nl(s)] == s.skip(1)[r]);
            assert forall|j: int| 0 <= j < first_nl(s) implies s[j] != 10 by {
                if j >= 1 {
                    assert(s[j] == s.skip(1)[j - 1]);
                }
            }
        } else {
            assert forall|j: int| 0 <= j < s.len() implies s[j] != 10 by {
                if j >= 1 {
                    assert(s[j] == s.skip(1)[j - 1]);
                }
            }
        }
    }
}

/// `first_nl` returns the position any witness pins down.
pub proof fn lemma_first_nl_at(s: Seq<u8>, i: int)
    requires
        0 <= i < s.len(),
        s[i] == 10,
        forall|j: int| 0 <= j < i ==> s[j] != 10,
    ensures
        first_nl(s) == i,
    decreases s.len(),
{
    if i > 0 {
        lemma_first_nl_at(s.skip(1), i - 1);
    }
}

/// `first_nl` is negative exactly when no byte is a newline.
pub proof fn lemma_first_nl_none(s: Seq<u8>)
    requires
        forall|j: int| 0 <= j < s.len() ==> s[j] != 10,
    ensures
        first_nl(s) < 0,
    decreases s.len(),
{
    if s.len() > 0 {
        lemma_first_nl_none(s.skip(1));
    }
}

/// The lines, each followed by a newline byte, laid end to end.
pub open spec fn encode_lines(lines: Seq<Seq<u8>>) -> Seq<u8>
    decreases lines.len(),
{
    if lines.len() == 0 {
        Seq::empty()
    } else {
        lines[0] + seq![10u8] + encode_lines(lines.skip(1))
    }
}

/// The complete lines at the front of a byte stream; bytes after the last
/// newline are not a line yet.
pub open spec fn decode_lines(s: Seq<u8>) -> Seq<Seq<u8>>
    decreases s.len(),
    via decode_lines_decreases
{
    if first_nl(s) < 0 {
        Seq::empty()
    } else {
        seq![s.take(first_nl(s))] + decode_lines(s.skip(first_nl(s) + 1))
    }
}

#[via_fn]
proof fn decode_lines_decreases(s: Seq<u8>) {
    lemma_first_nl(s);
}

/// An incremental reader over a byte stream. Bytes are appended with `feed`
/// and complete lines leave through `take_line`; an unterminated tail stays
/// buffered, untouched, until its newline arrives.
pub struct JsonlReader {
    buf: Vec<u8>,
    off: usize,
    end: usize,
}

impl JsonlReader {
    /// The buffer region holding bytes that were fed and not yet consumed.
    pub closed spec fn pending(&self) -> Seq<u8> {
        self.buf@.subrange(self.off as int, self.end as int)
    }

    pub closed spec fn wf(&self) -> bool {
        self.off <= self.end <= self.buf@.len()
    }

    pub fn new() -> (r: Self)
        ensures
            r.wf(),
            r.pending() == Seq::<u8>::empty(),
    {
        let mut buf: Vec<u8> = Vec::new();
        buf.resize(4096, 0u8);
        let r = JsonlReader { buf, off: 0, end: 0 };
        proof {
            assert(r.pending() =~= Seq::<u8>::empty());
        }
        r
    }

    /// Moves the pending bytes to the front of the buffer.
    fn compact(&mut self)
        requires
            old(self).wf(),
        ensures
            final(self).wf(),
            final(self).pending() == old(self).pending(),
            final(self).off == 0,
            final(self).end == old(self).pending().len(),
            final(self).buf@.len() == old(self).buf@.len(),
    {
        if self.off == 0 {
            proof {
                assert(self.pending() =~= old(self).pending());
            }
            return ;
        }
        let len = self.end - self.off;
        let mut j: usize = 0;
        while j < len
            invariant
                old(self).wf(),
                len == old(self).end - old(self).off,
                j <= len,
                self.off == old(self).off,
                self.end == old(self).end,
                self.buf@.len() == old(self).buf@.len(),
                forall|l: int| j <= l < len ==> self.buf@[old(self).off + l] == old(
                    self,
                ).pending()[l],
                forall|l: int| 0 <= l < j ==> self.buf@[l] == old(self).pending()[l],
            decreases len - j,
        {
            let b = self.buf[self.off + j];
            proof {
                assert(b == old(self).pending()[j as int]);
            }
            self.buf[j] = b;
            j = j + 1;
        }
        self.off = 0;
        self.end = len;
        proof {
            assert(self.pending() =~= old(self).pending());
        }
    }

    /// Appends bytes to the buffer, growing it geometrically when the free
    /// space behind the pending region is too small.
    pub fn feed(&mut self, data: &[u8])
        requires
            old(self).wf(),
            old(self).pending().len() + data@.len() <= usize::MAX,
        ensures
            final(self).wf(),
            final(self).pending() == old(self).pending() + data@,
    {
        let dlen = data.len();
        if self.buf.len() - self.end < dlen {
            self.compact();
            if self.buf.len() - self.end < dlen {
                let need = self.end + dlen;
                let mut cap = if self.buf.len() == 0 {
                    16
                } else {
                    self.buf.len()
                };
                while cap < need
                    invariant
                        need <= usize::MAX,
                        cap >= 1,
                    decreases need - cap,
                {
                    if cap > usize::MAX / 2 {
                        cap = need;
                    } else {
                        let doubled = cap * 2;
                        cap = if doubled < need {
                            doubled
                        } else {
                            need
                        };
                    }
                }
                proof {
                    assert(cap >= need);
                }
                self.buf.resize(cap, 0u8);
                proof {
                    assert(self.pending() =~= old(self).pending());
                }
            }
        }
        let buf_len = self.buf.len();
        proof {
            assert(self.wf());
            assert(buf_len == self.buf@.len());
            assert(self.end + dlen <= self.buf@.len());
        }
        let ghost mid = *self;
        let mut j: usize = 0;
        while j < dlen
            invariant
                mid.wf(),
                dlen == data@.len(),
                mid.end + dlen <= mid.buf@.len(),
                mid.buf@.len() <= usize::MAX,
                j <= dlen,
                self.off == mid.off,
                self.end == mid.end,
                self.buf@.len() == mid.buf@.len(),
                self.buf@.subrange(mid.off as int, mid.end as int) == mid.pending(),
                forall|l: int| 0 <= l < j ==> self.buf@[mid.end + l] == data@[l],
            decreases dlen - j,
        {
            let b = data[j];
            self.buf[self.end + j] = b;
            proof {
                assert(self.buf@.subrange(mid.off as int, mid.end as int) =~= mid.pending());
            }
            j = j + 1;
        }
        self.end = self.end + dlen;
        proof {
            assert(self.pending() =~= mid.pending() + data@);
            assert(mid.pending() == old(self).pending());
        }
    }

    /// Hands out the bytes of the first complete line, consuming them and
    /// the newline; when no complete line is buffered, consumes nothing and
    /// returns nothing, so the caller may wait for more bytes (tail mode) or
    /// treat the stream as ended.
    pub fn take_line(&mut self) -> (r: Option<Vec<u8>>)
        requires
            old(self).wf(),
        ensures
            final(self).wf(),
            match r {
                Some(line) => {
                    &&& first_nl(old(self).pending()) >= 0
                    &&& line@ == old(self).pending().take(first_nl(old(self).pending()))
                    &&& final(self).pending() == old(self).pending().skip(
                        first_nl(old(self).pending()) + 1,
                    )
                },
                None => {
                    &&& first_nl(old(self).pending()) < 0
                    &&& final(self).pending() == old(self).pending()
                },
            },
    {
        let ghost p = old(self).pending();
        let mut i: usize = self.off;
        while i < self.end
            invariant
                *self == *old(self),
                old(self).wf(),
                self.off <= i <= self.end,
                forall|l: int| 0 <= l < i - self.off ==> p[l] != 10,
                p == old(self).pending(),
            decreases self.end - i,
        {
            if self.buf[i] == 10 {
                proof {
                    assert(p[i - self.off] == 10);
                    lemma_first_nl_at(p, i - self.off);
                }
                let mut line: Vec<u8> = Vec::new();
                let mut j: usize = self.off;
                while j < i
                    invariant
                        *self == *old(self),
                        old(self).wf(),
                        self.off <= j <= i <= self.end,
                        p == old(self).pending(),
                        line@ == p.subrange(0, j - self.off),
                    decreases i - j,
                {
                    let b = self.buf[j];
                    line.push(b);
                    proof {
                        assert(line@ =~= p.subrange(0, j + 1 - self.off));
                    }
                    j = j + 1;
                }
                self.off = i + 1;
                proof {
                    assert(line@ =~= p.take(first_nl(p)));
                    assert(self.pending() =~= p.skip(first_nl(p) + 1));
                }
                return Some(line);
            }
            i = i + 1;
        }
        proof {
            lemma_first_nl_none(p);
        }
        self.compact();
        None
    }
}

/// Round trip: a stream assembled from newline-free lines decodes back to
/// exactly those lines, in order, once each.
pub proof fn lemma_encode_decode_round_trip(lines: Seq<Seq<u8>>)
    requires
        forall|i: int, j: int|
            0 <= i < lines.len() && 0 <= j < lines[i].len() ==> #[trigger] lines[i][j] != 10,
    ensures
        decode_lines(encode_lines(lines)) == lines,
    decreases lines.len(),
{
    if lines.len() == 0 {
        assert(decode_lines(encode_lines(lines)) =~= lines);
    } else {
        let s = encode_lines(lines);
        let head = lines[0];
        assert(s =~= head + seq![10u8] + encode_lines(lines.skip(1)));
        assert(s[head.len() as int] == 10);
        assert(forall|j: int| 0 <= j < head.len() ==> s[j] == head[j] && s[j] != 10);
        lemma_first_nl_at(s, head.len() as int);
        assert(s.take(first_nl(s)) =~= head);
        assert(s.skip(first_nl(s) + 1) =~= encode_lines(lines.skip(1)));
        lemma_encode_decode_round_trip(lines.skip(1));
        assert(decode_lines(s) =~= lines);
    }
}

/// Tail semantics: a buffered stream without a newline yields no line and
/// loses no byte; once the continuation carrying the terminator arrives, the
/// completed line is exactly the old tail followed by the continuation up to
/// its newline.
pub proof fn lemma_tail_completion(s: Seq<u8>, c: Seq<u8>)
    requires
        first_nl(s) < 0,
        first_nl(c) >= 0,
    ensures
        first_nl(s + c) == s.len() + first_nl(c),
        (s + c).take(first_nl(s + c)) == s + c.take(first_nl(c)),
{
    lemma_first_nl(s);
    lemma_first_nl(c);
    let t = s + c;
    assert(t[s.len() + first_nl(c)] == 10);
    assert forall|j: int| 0 <= j < s.len() + first_nl(c) implies t[j] != 10 by {
        if j < s.len() {
            assert(t[j] == s[j]);
        } else {
            assert(t[j] == c[j - s.len()]);
        }
    }
    lemma_first_nl_at(t, s.len() + first_nl(c));
    assert(t.take(first_nl(t)) =~= s + c.take(first_nl(c)));
}

} // verus!
