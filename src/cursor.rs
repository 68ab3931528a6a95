use vstd::prelude::*;

verus! {

/// A character of Unicode's White_Space set, as `char::is_whitespace` has it.
pub open spec fn is_space(c: char) -> bool {
    ('\t' <= c && c <= '\r') || c == ' ' || c == '\u{85}' || c == '\u{a0}' || c == '\u{1680}'
        || ('\u{2000}' <= c && c <= '\u{200a}') || c == '\u{2028}' || c == '\u{2029}'
        || c == '\u{202f}' || c == '\u{205f}' || c == '\u{3000}'
}

/// An ASCII letter, digit or underscore.
pub open spec fn is_ident(c: char) -> bool {
    ('0' <= c && c <= '9') || ('A' <= c && c <= 'Z') || ('a' <= c && c <= 'z') || c == '_'
}

/// The classes of characters that the cursor can scan a run of.
#[derive(Clone, Copy)]
pub enum CharClass {
    Space,
    Ident,
    /// One given character.
    Exactly(char),
}

pub open spec fn in_class(class: CharClass, c: char) -> bool {
    match class {
        CharClass::Space => is_space(c),
        CharClass::Ident => is_ident(c),
        CharClass::Exactly(x) => c == x,
    }
}

/// Length of the longest prefix of `s` whose characters are all in `class`.
pub open spec fn run_len(s: Seq<char>, class: CharClass) -> nat
    decreases s.len(),
{
    if s.len() > 0 && in_class(class, s[0]) {
        1 + run_len(s.drop_first(), class)
    } else {
        0
    }
}

pub proof fn lemma_run_len_bound(s: Seq<char>, class: CharClass)
    ensures
        run_len(s, class) <= s.len(),
        s.len() > 0 && in_class(class, s[0]) ==> run_len(s, class) > 0,
        s.len() > 0 && !in_class(class, s[0]) ==> run_len(s, class) == 0,
        forall|i: int| 0 <= i < run_len(s, class) ==> in_class(class, #[trigger] s[i]),
        run_len(s, class) < s.len() ==> !in_class(class, s[run_len(s, class) as int]),
    decreases s.len(),
{
    if s.len() > 0 && in_class(class, s[0]) {
        lemma_run_len_bound(s.drop_first(), class);
        assert forall|i: int| 0 <= i < run_len(s, class) implies in_class(class, #[trigger] s[i]) by {
            if i > 0 {
                assert(s[i] == s.drop_first()[i - 1]);
            }
        }
    }
}

/// A run of `class` in front of `r` adds its length to the run of `r`.
pub proof fn lemma_run_len_prefix(w: Seq<char>, r: Seq<char>, class: CharClass)
    requires
        forall|i: int| 0 <= i < w.len() ==> in_class(class, #[trigger] w[i]),
    ensures
        run_len(w + r, class) == w.len() + run_len(r, class),
    decreases w.len(),
{
    if w.len() == 0 {
        assert(w + r =~= r);
    } else {
        assert((w + r)[0] == w[0]);
        assert((w + r).drop_first() =~= w.drop_first() + r);
        assert forall|i: int| 0 <= i < w.len() - 1 implies in_class(
            class,
            #[trigger] w.drop_first()[i],
        ) by {
            assert(w.drop_first()[i] == w[i + 1]);
        }
        lemma_run_len_prefix(w.drop_first(), r, class);
    }
}

/// A run that ends inside `a` is the same whatever follows `a`.
pub proof fn lemma_run_len_within(a: Seq<char>, x: Seq<char>, class: CharClass)
    requires
        exists|i: int| 0 <= i < a.len() && !in_class(class, #[trigger] a[i]),
    ensures
        run_len(a + x, class) == run_len(a, class),
        run_len(a, class) < a.len(),
    decreases a.len(),
{
    assert((a + x)[0] == a[0]);
    if in_class(class, a[0]) {
        let i = choose|i: int| 0 <= i < a.len() && !in_class(class, #[trigger] a[i]);
        assert(a.drop_first()[i - 1] == a[i]);
        assert((a + x).drop_first() =~= a.drop_first() + x);
        lemma_run_len_within(a.drop_first(), x, class);
    }
}

/// The character `i` places into `s`, or NUL past its end.
pub open spec fn char_at(s: Seq<char>, i: int) -> char {
    if 0 <= i < s.len() {
        s[i]
    } else {
        '\0'
    }
}

pub fn is_whitespace(c: char) -> (r: bool)
    ensures
        r == is_space(c),
{
    ('\t' <= c && c <= '\r') || c == ' ' || c == '\u{85}' || c == '\u{a0}' || c == '\u{1680}'
        || ('\u{2000}' <= c && c <= '\u{200a}') || c == '\u{2028}' || c == '\u{2029}'
        || c == '\u{202f}' || c == '\u{205f}' || c == '\u{3000}'
}

pub fn is_ident_char(c: char) -> (r: bool)
    ensures
        r == is_ident(c),
{
    ('0' <= c && c <= '9') || ('A' <= c && c <= 'Z') || ('a' <= c && c <= 'z') || c == '_'
}

fn char_in_class(class: CharClass, c: char) -> (r: bool)
    ensures
        r == in_class(class, c),
{
    match class {
        CharClass::Space => is_whitespace(c),
        CharClass::Ident => is_ident_char(c),
        CharClass::Exactly(x) => c == x,
    }
}

/// A position in a sequence of characters, moved forward by the parsers.
pub(crate) struct CharStream {
    pub(crate) chars: Vec<char>,
    pub(crate) pos: usize,
}

impl CharStream {
    pub(crate) open spec fn wf(&self) -> bool {
        self.pos <= self.chars@.len()
    }

    /// What is left to read.
    pub(crate) open spec fn rest(&self) -> Seq<char> {
        self.chars@.skip(self.pos as int)
    }

    pub(crate) fn new(chars: Vec<char>) -> (r: CharStream)
        ensures
            r.wf(),
            r.pos == 0,
            r.chars@ == chars@,
            r.rest() == chars@,
    {
        let r = CharStream { chars, pos: 0 };
        assert(r.rest() =~= chars@);
        r
    }

    pub(crate) fn at_end(&self) -> (r: bool)
        requires
            self.wf(),
        ensures
            r == (self.rest().len() == 0),
    {
        self.pos >= self.chars.len()
    }

    pub(crate) fn peek(&self, offset: usize) -> (r: char)
        requires
            self.wf(),
        ensures
            r == char_at(self.rest(), offset as int),
    {
        if offset < self.chars.len() - self.pos {
            self.chars[self.pos + offset]
        } else {
            '\0'
        }
    }

    pub(crate) fn next(&mut self) -> (r: char)
        requires
            old(self).wf(),
            old(self).rest().len() > 0,
        ensures
            final(self).wf(),
            final(self).chars == old(self).chars,
            final(self).pos == old(self).pos + 1,
            r == old(self).rest()[0],
            final(self).rest() == old(self).rest().drop_first(),
    {
        let len = self.chars.len();
        assert(self.rest().len() == len - self.pos);
        let ch = self.chars[self.pos];
        self.pos = self.pos + 1;
        assert(self.rest() =~= old(self).rest().drop_first());
        ch
    }

    /// Moves past `text` where what is left starts with it.
    pub(crate) fn consume(&mut self, text: &[char]) -> (r: bool)
        requires
            old(self).wf(),
        ensures
            final(self).wf(),
            final(self).chars == old(self).chars,
            r == (text@.len() <= old(self).rest().len() && old(self).rest().take(
                text@.len() as int,
            ) == text@),
            r ==> final(self).pos == old(self).pos + text@.len(),
            !r ==> final(self).pos == old(self).pos,
    {
        let n = self.chars.len();
        if text.len() > n - self.pos {
            return false;
        }
        let mut i: usize = 0;
        while i < text.len()
            invariant
                self.wf(),
                text@.len() <= self.rest().len(),
                i <= text@.len(),
                forall|j: int| 0 <= j < i ==> self.rest()[j] == text@[j],
                self.rest().len() == self.chars@.len() - self.pos,
                n == self.chars@.len(),
            decreases text@.len() - i,
        {
            if self.chars[self.pos + i] != text[i] {
                assert(self.rest().take(text@.len() as int)[i as int] != text@[i as int]);
                return false;
            }
            i = i + 1;
        }
        assert(self.rest().take(text@.len() as int) =~= text@);
        self.pos = self.pos + text.len();
        true
    }

    /// Moves past the run of `required` characters that comes next, and
    /// tells whether there was one.
    pub(crate) fn consume_char(&mut self, required: char) -> (r: bool)
        requires
            old(self).wf(),
        ensures
            final(self).wf(),
            final(self).chars == old(self).chars,
            r == (old(self).rest().len() > 0 && old(self).rest()[0] == required),
            final(self).pos == old(self).pos + run_len(
                old(self).rest(),
                CharClass::Exactly(required),
            ),
    {
        proof {
            lemma_run_len_bound(self.rest(), CharClass::Exactly(required));
        }
        self.consume_while(CharClass::Exactly(required)).len() > 0
    }

    /// Moves past the longest run of characters of `class`, and returns it.
    pub(crate) fn consume_while(&mut self, class: CharClass) -> (r: Vec<char>)
        requires
            old(self).wf(),
        ensures
            final(self).wf(),
            final(self).chars == old(self).chars,
            final(self).pos == old(self).pos + run_len(old(self).rest(), class),
            r@ == old(self).rest().take(run_len(old(self).rest(), class) as int),
    {
        let ghost s0 = self.rest();
        let start = self.pos;
        let mut r: Vec<char> = Vec::new();
        while self.pos < self.chars.len() && char_in_class(class, self.chars[self.pos])
            invariant
                self.wf(),
                self.chars == old(self).chars,
                start == old(self).pos,
                start <= self.pos,
                s0 == old(self).rest(),
                run_len(s0, class) == (self.pos - start) + run_len(self.rest(), class),
                r@ == s0.take(self.pos - start),
            decreases self.chars@.len() - self.pos,
        {
            let c = self.chars[self.pos];
            assert(self.rest().drop_first() =~= self.chars@.skip(self.pos + 1));
            r.push(c);
            self.pos = self.pos + 1;
            assert(r@ =~= s0.take(self.pos - start));
        }
        assert(run_len(self.rest(), class) == 0);
        r
    }

    /// Moves past the whitespace that comes next.
    pub(crate) fn skip_whitespace(&mut self) -> (r: Vec<char>)
        requires
            old(self).wf(),
        ensures
            final(self).wf(),
            final(self).chars == old(self).chars,
            final(self).pos == old(self).pos + run_len(old(self).rest(), CharClass::Space),
            r@ == old(self).rest().take(run_len(old(self).rest(), CharClass::Space) as int),
    {
        self.consume_while(CharClass::Space)
    }

    /// A copy of what is left, without moving.
    pub(crate) fn tail(&self) -> (r: Vec<char>)
        requires
            self.wf(),
        ensures
            r@ == self.rest(),
    {
        let mut r: Vec<char> = Vec::new();
        let mut i: usize = self.pos;
        while i < self.chars.len()
            invariant
                self.wf(),
                self.pos <= i <= self.chars@.len(),
                r@ == self.chars@.subrange(self.pos as int, i as int),
            decreases self.chars@.len() - i,
        {
            r.push(self.chars[i]);
            i = i + 1;
            assert(r@ =~= self.chars@.subrange(self.pos as int, i as int));
        }
        assert(r@ =~= self.rest());
        r
    }
}

} // verus!
