use vstd::prelude::*;
use crate::cursor::{
    CharClass,
    CharStream,
    run_len,
    lemma_run_len_bound,
    lemma_run_len_within,
    in_class,
    is_space,
};

verus! {

/// Scans one logical line from the start of `s`: the line's text, with each
/// backslash-newline pair dropped, and how many characters it spans, its
/// ending newline included.
pub open spec fn line_scan(s: Seq<char>) -> (Seq<char>, nat)
    decreases s.len(),
{
    if s.len() == 0 {
        (seq![], 0)
    } else if s[0] == '\n' {
        (seq![], 1)
    } else if s[0] == '\\' && s.len() > 1 && s[1] == '\n' {
        let (t, n) = line_scan(s.skip(2));
        (t, n + 2)
    } else {
        let (t, n) = line_scan(s.drop_first());
        (seq![s[0]] + t, n + 1)
    }
}

pub proof fn lemma_line_scan_len(s: Seq<char>)
    ensures
        line_scan(s).1 <= s.len(),
        s.len() > 0 ==> line_scan(s).1 > 0,
    decreases s.len(),
{
    if s.len() == 0 {
    } else if s[0] == '\n' {
    } else if s[0] == '\\' && s.len() > 1 && s[1] == '\n' {
        lemma_line_scan_len(s.skip(2));
    } else {
        lemma_line_scan_len(s.drop_first());
    }
}

/// The logical lines of a header text: each starts after the whitespace
/// that precedes it and ends at a newline that no backslash escapes, or at
/// the end of the text.
pub open spec fn logical_lines(s: Seq<char>) -> Seq<Seq<char>>
    decreases s.len(),
{
    if s.len() == 0 {
        seq![]
    } else {
        let t = s.skip(run_len(s, CharClass::Space) as int);
        let (line, n) = line_scan(t);
        proof {
            lemma_run_len_bound(s, CharClass::Space);
            lemma_line_scan_len(t);
        }
        seq![line] + logical_lines(t.skip(n as int))
    }
}

/// A backslash followed by a newline, which joins two physical lines.
pub open spec fn continuation() -> Seq<char> {
    seq!['\\', '\n']
}

/// Scanning a line across a backslash-newline pair put after `a`: either the
/// line ends at a newline inside `a`, and the pair is not reached, or the
/// pair is dropped and the line runs on into `b`.
proof fn lemma_line_scan_continuation(a: Seq<char>, b: Seq<char>)
    requires
        a.len() > 0 ==> a.last() != '\\',
    ensures
        ({
            let (t, n) = line_scan(a + b);
            ||| (line_scan(a + continuation() + b) == (t, n) && 0 < n <= a.len() && a[n - 1]
                == '\n')
            ||| (line_scan(a + continuation() + b) == (t, n + 2) && n >= a.len())
        }),
    decreases a.len(),
{
    let s = a + continuation() + b;
    let t = a + b;
    if a.len() == 0 {
        assert(s.skip(2) =~= b);
        assert(t =~= b);
    } else {
        assert(s[0] == a[0]);
        assert(t[0] == a[0]);
        if a[0] == '\n' {
        } else {
            if a.len() > 1 {
                assert(s[1] == a[1]);
                assert(t[1] == a[1]);
            } else {
                assert(s[1] == '\\');
                assert(a[0] == a.last());
            }
            if a[0] == '\\' && a[1] == '\n' {
                let a2 = a.skip(2);
                assert(s.skip(2) =~= a2 + continuation() + b);
                assert(t.skip(2) =~= a2 + b);
                if a2.len() > 0 {
                    assert(a2.last() == a.last());
                }
                lemma_line_scan_continuation(a2, b);
                let n2 = line_scan(a2 + b).1;
                if 0 < n2 <= a2.len() && a2[n2 - 1] == '\n' {
                    assert(a[n2 + 1int] == a2[n2 - 1]);
                }
            } else {
                let a2 = a.drop_first();
                assert(s.drop_first() =~= a2 + continuation() + b);
                assert(t.drop_first() =~= a2 + b);
                if a2.len() > 0 {
                    assert(a2.last() == a.last());
                }
                lemma_line_scan_continuation(a2, b);
                let n2 = line_scan(a2 + b).1;
                if 0 < n2 <= a2.len() && a2[n2 - 1] == '\n' {
                    assert(a[n2 as int] == a2[n2 - 1]);
                }
            }
        }
    }
}

/// A backslash-newline pair put after `x` leaves the logical lines as they
/// would be without it, where the pair falls inside a line: `x` does not end
/// with a backslash, and after its last newline (or anywhere, where it has
/// none) stands a character other than whitespace.
pub proof fn lemma_continuation_joins(x: Seq<char>, y: Seq<char>)
    requires
        x.len() > 0,
        x.last() != '\\',
        exists|i: int|
            0 <= i < x.len() && !is_space(#[trigger] x[i]) && forall|j: int|
                i < j < x.len() ==> x[j] != '\n',
    ensures
        logical_lines(x + continuation() + y) == logical_lines(x + y),
    decreases x.len(),
{
    let s = x + continuation() + y;
    let t = x + y;
    let i = choose|i: int|
        0 <= i < x.len() && !is_space(#[trigger] x[i]) && forall|j: int|
            i < j < x.len() ==> x[j] != '\n';
    assert(!in_class(CharClass::Space, x[i]));
    lemma_run_len_within(x, continuation() + y, CharClass::Space);
    lemma_run_len_within(x, y, CharClass::Space);
    assert(s =~= x + (continuation() + y));
    assert(s[0] == x[0]);
    assert(t[0] == x[0]);
    let k = run_len(x, CharClass::Space);
    let a = x.skip(k as int);
    assert(a.last() == x.last());
    lemma_line_scan_continuation(a, y);
    assert(s.skip(k as int) =~= a + continuation() + y);
    assert(t.skip(k as int) =~= a + y);
    let n = line_scan(a + y).1;
    lemma_line_scan_len(a + y);
    if 0 < n <= a.len() && a[n - 1] == '\n' {
        let x2 = a.skip(n as int);
        assert(x[k + n - 1] == '\n');
        assert(is_space('\n'));
        assert(i >= k + n);
        assert(x2[i - k - n] == x[i]);
        assert forall|j: int| i - k - n < j < x2.len() implies x2[j] != '\n' by {
            assert(x2[j] == x[j + k + n]);
        }
        assert(x2.last() == x.last());
        assert((a + continuation() + y).skip(n as int) =~= x2 + continuation() + y);
        assert((a + y).skip(n as int) =~= x2 + y);
        lemma_continuation_joins(x2, y);
    } else {
        assert((a + continuation() + y).skip(n + 2int) =~= (a + y).skip(n as int));
    }
}

/// Reads the logical lines of a header text one at a time.
pub(crate) struct HeaderLines {
    pub(crate) input: CharStream,
}

impl HeaderLines {
    pub(crate) open spec fn wf(&self) -> bool {
        self.input.wf()
    }

    /// The text not read yet.
    pub(crate) open spec fn rest(&self) -> Seq<char> {
        self.input.rest()
    }

    pub(crate) fn new(chars: Vec<char>) -> (r: HeaderLines)
        ensures
            r.wf(),
            r.rest() == chars@,
    {
        HeaderLines { input: CharStream::new(chars) }
    }

    /// The next logical line, or `None` once the text is used up.
    pub(crate) fn next_line(&mut self) -> (r: Option<Vec<char>>)
        requires
            old(self).wf(),
        ensures
            final(self).wf(),
            final(self).input.chars@ == old(self).input.chars@,
            match r {
                None => old(self).rest().len() == 0 && final(self).rest() == old(self).rest(),
                Some(line) => {
                    let t = old(self).rest().skip(run_len(old(self).rest(), CharClass::Space) as int);
                    &&& old(self).rest().len() > 0
                    &&& line@ == line_scan(t).0
                    &&& final(self).rest() == t.skip(line_scan(t).1 as int)
                    &&& final(self).rest().len() < old(self).rest().len()
                    &&& logical_lines(old(self).rest()) == seq![line@] + logical_lines(
                        final(self).rest(),
                    )
                },
            },
    {
        if self.input.at_end() {
            return None;
        }
        let ghost s0 = self.input.rest();
        let ghost chars = self.input.chars@;
        self.input.skip_whitespace();
        let ghost t0 = self.input.rest();
        let ghost start = self.input.pos as int;
        proof {
            lemma_run_len_bound(s0, CharClass::Space);
            lemma_line_scan_len(t0);
            assert(t0 =~= s0.skip(run_len(s0, CharClass::Space) as int));
        }
        let ghost end = start + line_scan(t0).1;
        let mut line: Vec<char> = Vec::new();
        let mut done = false;
        while !done && !self.input.at_end()
            invariant
                self.input.wf(),
                self.input.chars@ == chars,
                chars == old(self).input.chars@,
                start <= self.input.pos,
                t0 == chars.skip(start),
                end == start + line_scan(t0).1,
                !done ==> self.input.pos + line_scan(self.input.rest()).1 == end,
                !done ==> line_scan(t0).0 == line@ + line_scan(self.input.rest()).0,
                done ==> self.input.pos == end && line_scan(t0).0 == line@,
            decreases self.input.rest().len(),
        {
            let ghost s = self.input.rest();
            let ch = self.input.peek(0);
            if ch == '\n' {
                self.input.next();
                done = true;
                assert(line@ + seq![] =~= line@);
            } else if ch == '\\' && self.input.peek(1) == '\n' {
                self.input.next();
                self.input.next();
                assert(self.input.rest() =~= s.skip(2));
            } else {
                let ghost before = line@;
                self.input.next();
                line.push(ch);
                assert(before + (seq![ch] + line_scan(s.drop_first()).0) =~= line@ + line_scan(
                    s.drop_first(),
                ).0);
            }
        }
        proof {
            if !done {
                assert(line_scan(self.input.rest()).0 =~= seq![]);
                assert(line@ + seq![] =~= line@);
            }
            assert(self.input.rest() =~= t0.skip(line_scan(t0).1 as int));
            assert(logical_lines(s0) == seq![line_scan(t0).0] + logical_lines(
                t0.skip(line_scan(t0).1 as int),
            ));
        }
        Some(line)
    }
}

} // verus!
