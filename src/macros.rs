use vstd::prelude::*;
use crate::cursor::{
    CharClass,
    CharStream,
    run_len,
    lemma_run_len_bound,
    lemma_run_len_prefix,
    in_class,
    is_space,
    is_ident,
    is_whitespace,
    is_ident_char,
};
use crate::lines::{HeaderLines, logical_lines, continuation, lemma_continuation_joins};
use crate::text::{chars_of, string_of};

verus! {

/// A `#define` taken from a header.
#[derive(PartialEq, Debug)]
pub struct CMacro {
    /// The macro's name.
    pub name: String,
    /// The parameters, for a function-like macro.
    pub args: Option<Vec<String>>,
    /// What the macro expands to, if anything.
    pub body: Option<String>,
}

/// The value of a `CMacro`, as text.
pub struct MacroView {
    pub name: Seq<char>,
    pub args: Option<Seq<Seq<char>>>,
    pub body: Option<Seq<char>>,
}

/// The text of each string, in order.
pub open spec fn strings_view(s: Seq<String>) -> Seq<Seq<char>> {
    s.map_values(|x: String| x@)
}

impl View for CMacro {
    type V = MacroView;

    open spec fn view(&self) -> MacroView {
        MacroView {
            name: self.name@,
            args: match self.args {
                Some(v) => Some(strings_view(v@)),
                None => None,
            },
            body: match self.body {
                Some(b) => Some(b@),
                None => None,
            },
        }
    }
}

/// Why a `#define` line could not be read.
#[derive(PartialEq, Debug)]
pub enum ParseError {
    /// No name follows `#define`; holds the text that stands there instead.
    MissingName(String),
    /// A character that has no place in a parameter list (NUL where the
    /// line ends before the closing parenthesis).
    UnexpectedChar(char),
}

pub enum ParseErrorView {
    MissingName(Seq<char>),
    UnexpectedChar(char),
}

impl View for ParseError {
    type V = ParseErrorView;

    open spec fn view(&self) -> ParseErrorView {
        match self {
            ParseError::MissingName(s) => ParseErrorView::MissingName(s@),
            ParseError::UnexpectedChar(c) => ParseErrorView::UnexpectedChar(*c),
        }
    }
}

/// The value of a parse result.
pub open spec fn macro_result_view(r: Result<CMacro, ParseError>) -> Result<
    MacroView,
    ParseErrorView,
> {
    match r {
        Ok(m) => Ok(m@),
        Err(e) => Err(e@),
    }
}

/// The value of an extraction result.
pub open spec fn macros_result_view(r: Result<Vec<CMacro>, ParseError>) -> Result<
    Seq<MacroView>,
    ParseErrorView,
> {
    match r {
        Ok(v) => Ok(v@.map_values(|m: CMacro| m@)),
        Err(e) => Err(e@),
    }
}

pub open spec fn define_keyword() -> Seq<char> {
    seq!['d', 'e', 'f', 'i', 'n', 'e']
}

/// Where `line` is a `#define` directive: the text after `#define` and the
/// whitespace that follows it. Whitespace may stand between `#` and
/// `define`, and at least one whitespace character must follow `define`.
pub open spec fn define_rest(line: Seq<char>) -> Option<Seq<char>> {
    if line.len() > 0 && line[0] == '#' {
        let a = line.drop_first();
        let b = a.skip(run_len(a, CharClass::Space) as int);
        if b.len() > 6 && b.take(6) == define_keyword() && is_space(b[6]) {
            let c = b.skip(6);
            Some(c.skip(run_len(c, CharClass::Space) as int))
        } else {
            None
        }
    } else {
        None
    }
}

/// Puts `pre` before the parameters and adds `k` to the length read.
pub open spec fn shift_args(
    pre: Seq<Seq<char>>,
    k: nat,
    r: Result<(Seq<Seq<char>>, nat), char>,
) -> Result<(Seq<Seq<char>>, nat), char> {
    match r {
        Ok((a, n)) => Ok((pre + a, n + k)),
        Err(c) => Err(c),
    }
}

/// Reads a parameter list that starts just after its `(`: the names in
/// order and the number of characters read through `)`, or the first
/// character that does not fit (NUL at the end of the text).
pub open spec fn arg_list(s: Seq<char>) -> Result<(Seq<Seq<char>>, nat), char>
    decreases s.len(),
{
    if s.len() == 0 {
        Err('\0')
    } else if s[0] == ',' {
        shift_args(seq![], 1, arg_list(s.drop_first()))
    } else if s[0] == ')' {
        Ok((seq![], 1))
    } else if is_space(s[0]) {
        shift_args(seq![], 1, arg_list(s.drop_first()))
    } else if is_ident(s[0]) {
        let k = run_len(s, CharClass::Ident);
        proof {
            lemma_run_len_bound(s, CharClass::Ident);
        }
        shift_args(seq![s.take(k as int)], k, arg_list(s.skip(k as int)))
    } else {
        Err(s[0])
    }
}

/// Length of the run of whitespace at the end of `s`.
pub open spec fn trailing_space_len(s: Seq<char>) -> nat
    decreases s.len(),
{
    if s.len() > 0 && is_space(s.last()) {
        1 + trailing_space_len(s.drop_last())
    } else {
        0
    }
}

/// `s` without whitespace at either end.
pub open spec fn trim(s: Seq<char>) -> Seq<char> {
    let u = s.skip(run_len(s, CharClass::Space) as int);
    u.take(u.len() - trailing_space_len(u))
}

/// The body that the text after a macro's name and parameters gives.
pub open spec fn body_of(s: Seq<char>) -> Option<Seq<char>> {
    if trim(s).len() == 0 {
        None
    } else {
        Some(trim(s))
    }
}

/// Reads a macro from the text after `#define `: a name, then a parameter
/// list where `(` follows the name at once, then the body.
pub open spec fn macro_of(s: Seq<char>) -> Result<MacroView, ParseErrorView> {
    let k = run_len(s, CharClass::Ident);
    let name = s.take(k as int);
    let r = s.skip(k as int);
    if k == 0 {
        Err(ParseErrorView::MissingName(s))
    } else if r.len() > 0 && r[0] == '(' {
        match arg_list(r.drop_first()) {
            Ok((args, n)) => Ok(
                MacroView { name, args: Some(args), body: body_of(r.drop_first().skip(n as int)) },
            ),
            Err(c) => Err(ParseErrorView::UnexpectedChar(c)),
        }
    } else {
        Ok(MacroView { name, args: None, body: body_of(r) })
    }
}

/// The macros defined by a sequence of logical lines, in order, or the
/// error of the first `#define` line that cannot be read.
pub open spec fn macros_in_lines(ls: Seq<Seq<char>>) -> Result<Seq<MacroView>, ParseErrorView>
    decreases ls.len(),
{
    if ls.len() == 0 {
        Ok(seq![])
    } else {
        let rest = macros_in_lines(ls.drop_first());
        match define_rest(ls[0]) {
            None => rest,
            Some(d) => match macro_of(d) {
                Err(e) => Err(e),
                Ok(m) => match rest {
                    Ok(ms) => Ok(seq![m] + ms),
                    Err(e) => Err(e),
                },
            },
        }
    }
}

/// The macros that a header text defines.
pub open spec fn header_macros(s: Seq<char>) -> Result<Seq<MacroView>, ParseErrorView> {
    macros_in_lines(logical_lines(s))
}

fn parse_ident(input: &mut CharStream) -> (r: Vec<char>)
    requires
        old(input).wf(),
    ensures
        final(input).wf(),
        final(input).chars == old(input).chars,
        final(input).pos == old(input).pos + run_len(old(input).rest(), CharClass::Ident),
        r@ == old(input).rest().take(run_len(old(input).rest(), CharClass::Ident) as int),
{
    input.consume_while(CharClass::Ident)
}

/// Reads a parameter list, starting at its `(`.
fn parse_arg_list(input: &mut CharStream) -> (r: Result<Vec<String>, char>)
    requires
        old(input).wf(),
        old(input).rest().len() > 0,
        old(input).rest()[0] == '(',
    ensures
        final(input).wf(),
        final(input).chars == old(input).chars,
        match arg_list(old(input).rest().drop_first()) {
            Ok((a, n)) => r is Ok && strings_view(r->Ok_0@) == a && final(input).pos == old(
                input,
            ).pos + 1 + n,
            Err(c) => r == Err::<Vec<String>, char>(c),
        },
{
    let ghost s0 = old(input).rest().drop_first();
    let ghost p0 = old(input).pos + 1;
    let mut args: Vec<String> = Vec::new();
    input.next();
    assert(input.rest() =~= s0);
    loop
        invariant
            input.wf(),
            input.chars == old(input).chars,
            p0 <= input.pos,
            s0 == old(input).rest().drop_first(),
            p0 == old(input).pos + 1,
            arg_list(s0) == shift_args(strings_view(args@), (input.pos - p0) as nat, arg_list(input.rest())),
        decreases input.rest().len(),
    {
        let ghost s = input.rest();
        let ghost k = (input.pos - p0) as nat;
        let ch = input.peek(0);
        if ch == ',' && !input.at_end() {
            input.next();
        } else if ch == ')' && !input.at_end() {
            input.next();
            assert(strings_view(args@) + seq![] =~= strings_view(args@));
            return Ok(args);
        } else if is_whitespace(ch) && !input.at_end() {
            input.next();
        } else if is_ident_char(ch) && !input.at_end() {
            let ghost before = strings_view(args@);
            proof { lemma_run_len_bound(s, CharClass::Ident); }
            let id = parse_ident(input);
            let name = string_of(id.as_slice(), id.len());
            args.push(name);
            assert(id@.take(id@.len() as int) =~= id@);
            assert(strings_view(args@) =~= before + seq![id@]);
            assert(input.rest() =~= s.skip(run_len(s, CharClass::Ident) as int));
            let ghost x = arg_list(input.rest());
            assert(shift_args(before, k, shift_args(seq![id@], run_len(s, CharClass::Ident), x))
                == shift_args(strings_view(args@), (input.pos - p0) as nat, x)) by {
                match x {
                    Ok((a, n)) => {
                        assert(before + (seq![id@] + a) =~= strings_view(args@) + a);
                    },
                    Err(c) => {},
                }
            }
        } else {
            assert(arg_list(s) == Err::<(Seq<Seq<char>>, nat), char>(ch));
            return Err(ch);
        }
    }
}

/// Length of `v` once the whitespace at its end is left off.
fn trimmed_len(v: &Vec<char>) -> (r: usize)
    ensures
        r == v@.len() - trailing_space_len(v@),
        r <= v@.len(),
{
    let mut b: usize = v.len();
    assert(v@.take(b as int) =~= v@);
    while b > 0 && is_whitespace(v[b - 1])
        invariant
            b <= v@.len(),
            trailing_space_len(v@) == (v@.len() - b) + trailing_space_len(v@.take(b as int)),
        decreases b,
    {
        assert(v@.take(b as int).drop_last() =~= v@.take(b - 1));
        b = b - 1;
    }
    b
}

/// Reads a macro from the text after `#define ` and its whitespace.
fn parse_macro(input: &mut CharStream) -> (r: Result<CMacro, ParseError>)
    requires
        old(input).wf(),
    ensures
        macro_result_view(r) == macro_of(old(input).rest()),
{
    let ghost s = input.rest();
    let name = parse_ident(input);
    if name.len() == 0 {
        let rest = input.tail();
        let text = string_of(rest.as_slice(), rest.len());
        assert(rest@.take(rest@.len() as int) =~= rest@);
        assert(input.rest() =~= s);
        return Err(ParseError::MissingName(text));
    }
    let ghost k = run_len(s, CharClass::Ident);
    proof {
        lemma_run_len_bound(s, CharClass::Ident);
    }
    assert(input.rest() =~= s.skip(k as int));
    let args = if input.peek(0) == '(' {
        match parse_arg_list(input) {
            Ok(a) => Some(a),
            Err(c) => {
                return Err(ParseError::UnexpectedChar(c));
            },
        }
    } else {
        None
    };
    let ghost after = input.rest();
    proof {
        if args is Some {
            let n = arg_list(s.skip(k as int).drop_first())->Ok_0.1;
            assert(after =~= s.skip(k as int).drop_first().skip(n as int));
        }
    }
    input.skip_whitespace();
    let rest = input.tail();
    let ghost u = after.skip(run_len(after, CharClass::Space) as int);
    assert(rest@ =~= u);
    let b: usize = trimmed_len(&rest);
    let body = if b > 0 {
        Some(string_of(rest.as_slice(), b))
    } else {
        None
    };
    let name_text = string_of(name.as_slice(), name.len());
    assert(name@.take(name@.len() as int) =~= name@);
    Ok(CMacro { name: name_text, args, body })
}

/// The text after `#define` and its whitespace, where `line` is such a
/// directive.
fn define_directive(line: Vec<char>) -> (r: Option<CharStream>)
    ensures
        match r {
            None => define_rest(line@) is None,
            Some(c) => c.wf() && define_rest(line@) == Some(c.rest()),
        },
{
    let ghost l = line@;
    let mut input = CharStream::new(line);
    if input.peek(0) != '#' {
        return None;
    }
    input.next();
    let ghost a = l.drop_first();
    assert(input.rest() =~= a);
    input.skip_whitespace();
    let ghost b = a.skip(run_len(a, CharClass::Space) as int);
    proof {
        lemma_run_len_bound(a, CharClass::Space);
    }
    assert(input.rest() =~= b);
    let keyword: [char; 6] = ['d', 'e', 'f', 'i', 'n', 'e'];
    assert(keyword@ =~= define_keyword());
    if !input.consume(keyword.as_slice()) {
        return None;
    }
    assert(input.rest() =~= b.skip(6));
    if !is_whitespace(input.peek(0)) {
        return None;
    }
    input.skip_whitespace();
    let ghost c = b.skip(6);
    proof {
        lemma_run_len_bound(c, CharClass::Space);
    }
    assert(input.rest() =~= c.skip(run_len(c, CharClass::Space) as int));
    Some(input)
}

/// A text none of whose logical lines is a `#define` directive defines no
/// macros.
pub proof fn lemma_no_directives_no_macros(s: Seq<char>)
    requires
        forall|i: int|
            0 <= i < logical_lines(s).len() ==> define_rest(#[trigger] logical_lines(s)[i]) is None,
    ensures
        header_macros(s) == Ok::<Seq<MacroView>, ParseErrorView>(seq![]),
{
    lemma_no_directive_lines(logical_lines(s));
}

proof fn lemma_no_directive_lines(ls: Seq<Seq<char>>)
    requires
        forall|i: int| 0 <= i < ls.len() ==> define_rest(#[trigger] ls[i]) is None,
    ensures
        macros_in_lines(ls) == Ok::<Seq<MacroView>, ParseErrorView>(seq![]),
    decreases ls.len(),
{
    if ls.len() > 0 {
        assert(define_rest(ls[0]) is None);
        assert forall|i: int| 0 <= i < ls.len() - 1 implies define_rest(
            #[trigger] ls.drop_first()[i],
        ) is None by {
            assert(ls.drop_first()[i] == ls[i + 1]);
        }
        lemma_no_directive_lines(ls.drop_first());
    }
}

/// The macros of two runs of lines, one after the other, are those of the
/// first run followed by those of the second; an error of the first run
/// comes before any of the second.
pub proof fn lemma_macros_in_lines_append(a: Seq<Seq<char>>, b: Seq<Seq<char>>)
    ensures
        macros_in_lines(a + b) == match macros_in_lines(a) {
            Ok(x) => prepend_macros(x, macros_in_lines(b)),
            Err(e) => Err(e),
        },
    decreases a.len(),
{
    if a.len() == 0 {
        assert(a + b =~= b);
        match macros_in_lines(b) {
            Ok(y) => {
                assert(seq![] + y =~= y);
            },
            Err(e) => {},
        }
    } else {
        assert((a + b).drop_first() =~= a.drop_first() + b);
        assert((a + b)[0] == a[0]);
        lemma_macros_in_lines_append(a.drop_first(), b);
        match macros_in_lines(a.drop_first()) {
            Ok(x) => {
                match macros_in_lines(b) {
                    Ok(y) => {
                        if let Some(d) = define_rest(a[0]) {
                            if let Ok(m) = macro_of(d) {
                                assert(seq![m] + (x + y) =~= (seq![m] + x) + y);
                            }
                        }
                    },
                    Err(e) => {},
                }
            },
            Err(e) => {},
        }
    }
}

/// A backslash-newline pair put after `x` changes no macro, where the pair
/// falls inside a line: `x` does not end with a backslash, and after its last
/// newline (or anywhere, where it has none) stands a character other than
/// whitespace.
pub proof fn lemma_continued_macro(x: Seq<char>, y: Seq<char>)
    requires
        x.len() > 0,
        x.last() != '\\',
        exists|i: int|
            0 <= i < x.len() && !is_space(#[trigger] x[i]) && forall|j: int|
                i < j < x.len() ==> x[j] != '\n',
    ensures
        header_macros(x + continuation() + y) == header_macros(x + y),
{
    lemma_continuation_joins(x, y);
}

/// Extraction is a function of the text alone: the same text gives the same
/// macros, or the same error, each time.
pub proof fn lemma_extraction_deterministic(s: Seq<char>, t: Seq<char>)
    requires
        s == t,
    ensures
        header_macros(s) == header_macros(t),
{
}

/// Whitespace between `#` and `define`, and any run of whitespace after
/// `define`, leave the directive's text after them as it stands.
pub proof fn lemma_directive_spacing(w1: Seq<char>, w2: Seq<char>, r: Seq<char>)
    requires
        forall|i: int| 0 <= i < w1.len() ==> is_space(#[trigger] w1[i]),
        forall|i: int| 0 <= i < w2.len() ==> is_space(#[trigger] w2[i]),
        w2.len() > 0,
        r.len() == 0 || !is_space(r[0]),
    ensures
        define_rest(seq!['#'] + w1 + define_keyword() + w2 + r) == Some(r),
{
    let line = seq!['#'] + w1 + define_keyword() + w2 + r;
    let k = define_keyword();
    let a = line.drop_first();
    assert(a =~= w1 + (k + w2 + r));
    assert(forall|i: int| 0 <= i < w1.len() ==> in_class(CharClass::Space, #[trigger] w1[i]));
    lemma_run_len_prefix(w1, k + w2 + r, CharClass::Space);
    assert((k + w2 + r)[0] == 'd');
    assert(run_len(k + w2 + r, CharClass::Space) == 0);
    let b = a.skip(w1.len() as int);
    assert(b =~= k + w2 + r);
    assert(b.take(6) =~= k);
    assert(b[6] == w2[0]);
    let c = b.skip(6);
    assert(c =~= w2 + r);
    assert(forall|i: int| 0 <= i < w2.len() ==> in_class(CharClass::Space, #[trigger] w2[i]));
    lemma_run_len_prefix(w2, r, CharClass::Space);
    assert(run_len(r, CharClass::Space) == 0);
    assert(c.skip(w2.len() as int) =~= r);
}

/// Whitespace and commas where a parameter list is read (after `(`, after
/// a name, after a comma) change neither the names read nor the text that
/// follows the list: only the count of characters read grows by theirs.
pub proof fn lemma_arg_list_spacing(w: Seq<char>, s: Seq<char>)
    requires
        forall|i: int| 0 <= i < w.len() ==> is_space(#[trigger] w[i]) || w[i] == ',',
    ensures
        arg_list(w + s) == shift_args(seq![], w.len(), arg_list(s)),
    decreases w.len(),
{
    if w.len() == 0 {
        assert(w + s =~= s);
        match arg_list(s) {
            Ok((a, n)) => {
                assert(seq![] + a =~= a);
            },
            Err(c) => {},
        }
    } else {
        assert((w + s)[0] == w[0]);
        assert((w + s).drop_first() =~= w.drop_first() + s);
        assert forall|i: int| 0 <= i < w.len() - 1 implies is_space(#[trigger] w.drop_first()[i])
            || w.drop_first()[i] == ',' by {
            assert(w.drop_first()[i] == w[i + 1]);
        }
        lemma_arg_list_spacing(w.drop_first(), s);
        match arg_list(s) {
            Ok((a, n)) => {
                assert(seq![] + (seq![] + a) =~= seq![] + a);
            },
            Err(c) => {},
        }
    }
}

/// A name followed at once by `()` makes a function-like macro with no
/// parameters, which is not the same as having none at all; its body is the
/// rest of the line, trimmed, and absent where nothing is left.
pub proof fn lemma_empty_arg_list(name: Seq<char>, r: Seq<char>)
    requires
        name.len() > 0,
        forall|i: int| 0 <= i < name.len() ==> is_ident(#[trigger] name[i]),
    ensures
        macro_of(name + seq!['(', ')'] + r) == Ok::<MacroView, ParseErrorView>(
            MacroView { name, args: Some(seq![]), body: body_of(r) },
        ),
{
    let s = name + seq!['(', ')'] + r;
    assert(s =~= name + (seq!['(', ')'] + r));
    assert(forall|i: int| 0 <= i < name.len() ==> in_class(CharClass::Ident, #[trigger] name[i]));
    lemma_run_len_prefix(name, seq!['(', ')'] + r, CharClass::Ident);
    assert((seq!['(', ')'] + r)[0] == '(');
    assert(run_len(seq!['(', ')'] + r, CharClass::Ident) == 0);
    assert(s.take(name.len() as int) =~= name);
    let rest = s.skip(name.len() as int);
    assert(rest =~= seq!['(', ')'] + r);
    assert(rest.drop_first() =~= seq![')'] + r);
    assert(rest.drop_first().skip(1) =~= r);
}

/// A name followed by text that starts with neither `(` nor a name
/// character makes an object-like macro; its body is that text trimmed, and
/// absent where nothing is left.
pub proof fn lemma_object_like_macro(name: Seq<char>, r: Seq<char>)
    requires
        name.len() > 0,
        forall|i: int| 0 <= i < name.len() ==> is_ident(#[trigger] name[i]),
        r.len() == 0 || (r[0] != '(' && !is_ident(r[0])),
    ensures
        macro_of(name + r) == Ok::<MacroView, ParseErrorView>(
            MacroView { name, args: None, body: body_of(r) },
        ),
{
    let s = name + r;
    assert(forall|i: int| 0 <= i < name.len() ==> in_class(CharClass::Ident, #[trigger] name[i]));
    lemma_run_len_prefix(name, r, CharClass::Ident);
    assert(run_len(r, CharClass::Ident) == 0);
    assert(s.take(name.len() as int) =~= name);
    assert(s.skip(name.len() as int) =~= r);
}

proof fn lemma_trailing_space_len(s: Seq<char>)
    ensures
        trailing_space_len(s) <= s.len(),
        forall|i: int|
            s.len() - trailing_space_len(s) <= i < s.len() ==> is_space(#[trigger] s[i]),
        trailing_space_len(s) < s.len() ==> !is_space(s[s.len() - 1 - trailing_space_len(s)]),
    decreases s.len(),
{
    if s.len() > 0 && is_space(s.last()) {
        assert(s.drop_last().len() > 0 ==> s.drop_last().last() == s[s.len() - 2]);
        if trailing_space_len(s) < s.len() {
            assert(s[s.len() - 1 - trailing_space_len(s)] == s.drop_last()[s.drop_last().len() - 1
                - trailing_space_len(s.drop_last())]);
        }
        lemma_trailing_space_len(s.drop_last());
        assert forall|i: int|
            s.len() - trailing_space_len(s) <= i < s.len() implies is_space(#[trigger] s[i]) by {
            if i < s.len() - 1 {
                assert(s[i] == s.drop_last()[i]);
            }
        }
    }
}

/// A macro has a body exactly where some text other than whitespace follows
/// its name and parameters; the body is then that text with the whitespace
/// at both ends left off: not empty, with no whitespace at either end, and
/// with only whitespace around it in the text.
pub proof fn lemma_body_absent_iff_blank(r: Seq<char>)
    ensures
        body_of(r) is None <==> forall|i: int| 0 <= i < r.len() ==> is_space(#[trigger] r[i]),
        body_of(r) is Some ==> {
            let b = body_of(r)->0;
            &&& b == trim(r)
            &&& b.len() > 0
            &&& !is_space(b[0])
            &&& !is_space(b.last())
            &&& exists|p: int, q: int|
                {
                    &&& 0 <= p <= q <= r.len()
                    &&& b == r.subrange(p, q)
                    &&& forall|i: int| 0 <= i < p ==> is_space(#[trigger] r[i])
                    &&& forall|i: int| q <= i < r.len() ==> is_space(#[trigger] r[i])
                }
        },
{
    let k = run_len(r, CharClass::Space);
    lemma_run_len_bound(r, CharClass::Space);
    let u = r.skip(k as int);
    lemma_trailing_space_len(u);
    if body_of(r) is Some {
        let b = trim(r);
        let q = k + u.len() - trailing_space_len(u);
        assert(b =~= r.subrange(k as int, q));
        assert(b[0] == r[k as int]);
        assert(b.last() == u[u.len() - 1 - trailing_space_len(u)]);
        assert forall|i: int| 0 <= i < k implies is_space(#[trigger] r[i]) by {
            assert(in_class(CharClass::Space, r[i]));
        }
        assert forall|i: int| q <= i < r.len() implies is_space(#[trigger] r[i]) by {
            assert(r[i] == u[i - k]);
        }
    }
    if forall|i: int| 0 <= i < r.len() ==> is_space(#[trigger] r[i]) {
        assert(forall|i: int| 0 <= i < r.len() ==> in_class(CharClass::Space, #[trigger] r[i]));
        lemma_run_len_prefix(r, seq![], CharClass::Space);
        assert(r + seq![] =~= r);
        assert(u.len() == 0);
    }
    if trim(r).len() == 0 {
        assert forall|i: int| 0 <= i < r.len() implies is_space(#[trigger] r[i]) by {
            if i >= k {
                assert(r[i] == u[i - k]);
            } else {
                assert(in_class(CharClass::Space, r[i]));
            }
        }
    }
}

/// Puts `pre` before the macros of `r`.
pub open spec fn prepend_macros(
    pre: Seq<MacroView>,
    r: Result<Seq<MacroView>, ParseErrorView>,
) -> Result<Seq<MacroView>, ParseErrorView> {
    match r {
        Ok(ms) => Ok(pre + ms),
        Err(e) => Err(e),
    }
}

/// Extracts the `#define` macros of a C header text, in the order of their
/// directives. Lines that are not `#define` directives are passed over; the
/// first `#define` line that cannot be read fails the whole extraction.
pub fn extract_macros(src: &str) -> (r: Result<Vec<CMacro>, ParseError>)
    ensures
        macros_result_view(r) == header_macros(src@),
{
    let mut lines = HeaderLines::new(chars_of(src));
    let mut macros: Vec<CMacro> = Vec::new();
    assert(macros@.map_values(|m: CMacro| m@) + seq![] =~= seq![]);
    loop
        invariant
            lines.wf(),
            header_macros(src@) == prepend_macros(
                macros@.map_values(|m: CMacro| m@),
                macros_in_lines(logical_lines(lines.rest())),
            ),
        decreases lines.rest().len(),
    {
        let ghost before = lines.rest();
        let ghost done = macros@.map_values(|m: CMacro| m@);
        match lines.next_line() {
            None => {
                assert(done + seq![] =~= done);
                return Ok(macros);
            },
            Some(line) => {
                let ghost ls = logical_lines(before);
                let ghost l = line@;
                assert(ls.drop_first() =~= logical_lines(lines.rest()));
                match define_directive(line) {
                    None => {},
                    Some(mut d) => {
                        match parse_macro(&mut d) {
                            Ok(m) => {
                                let ghost mv = m@;
                                macros.push(m);
                                assert(macros@.map_values(|m: CMacro| m@) =~= done.push(mv));
                                proof {
                                    match macros_in_lines(logical_lines(lines.rest())) {
                                        Ok(ms) => {
                                            assert(done + (seq![mv] + ms) =~= done.push(mv) + ms);
                                        },
                                        Err(e) => {},
                                    }
                                }
                            },
                            Err(e) => {
                                return Err(e);
                            },
                        }
                    },
                }
            },
        }
    }
}

impl CMacro {
    /// An object-like macro.
    pub fn new(name: &str, body: Option<&str>) -> (r: CMacro)
        ensures
            r@.name == name@,
            r@.args is None,
            r@.body == match body {
                Some(b) => Some(b@),
                None => None::<Seq<char>>,
            },
    {
        let body = match body {
            Some(b) => Some(b.to_owned()),
            None => None,
        };
        CMacro { name: name.to_owned(), args: None, body }
    }

    /// A function-like macro with the given parameters and body.
    pub fn new_with_args(name: &str, args: Vec<&str>, body: &str) -> (r: CMacro)
        ensures
            r@.name == name@,
            r@.args is Some,
            r@.args->0.len() == args@.len(),
            forall|i: int| 0 <= i < args@.len() ==> r@.args->0[i] == args@[i]@,
            r@.body == Some(body@),
    {
        let mut arg_strings: Vec<String> = Vec::new();
        let mut i: usize = 0;
        while i < args.len()
            invariant
                i <= args@.len(),
                arg_strings@.len() == i,
                forall|j: int| 0 <= j < i ==> arg_strings@[j]@ == args@[j]@,
            decreases args@.len() - i,
        {
            arg_strings.push(args[i].to_owned());
            i = i + 1;
        }
        CMacro { name: name.to_owned(), args: Some(arg_strings), body: Some(body.to_owned()) }
    }
}

} // verus!
