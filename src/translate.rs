use vstd::prelude::*;
use crate::macros::CMacro;
use crate::text::chars_of;

verus! {

/// A Rust constant to declare.
pub struct ConstDecl {
    pub name: String,
    pub const_type: String,
    pub expr: String,
}

/// What to generate for one macro.
pub enum TranslateAction {
    /// Declare a constant with the given type.
    TypedConst(ConstDecl),
    /// Generate nothing for this macro.
    Skip,
}

/// Whether `s` holds `0x` somewhere.
pub open spec fn has_hex_marker(s: Seq<char>) -> bool {
    exists|i: int| 0 <= i && i + 1 < s.len() && #[trigger] s[i] == '0' && s[i + 1] == 'x'
}

/// The type that a macro body suggests: a string type for a body that
/// starts with `"`, `u32` for one that holds `0x`, `i32` for any other.
pub open spec fn guessed_type(body: Seq<char>) -> Seq<char> {
    if body.len() > 0 && body[0] == '"' {
        "&'static str"@
    } else if has_hex_marker(body) {
        "u32"@
    } else {
        "i32"@
    }
}

/// Guesses a type for a constant from the text of a macro body.
pub fn guess_type(body: &str) -> (r: &'static str)
    ensures
        r@ == guessed_type(body@),
{
    let s = chars_of(body);
    if s.len() > 0 && s[0] == '"' {
        return "&'static str";
    }
    let mut i: usize = 0;
    while i < s.len()
        invariant
            s@ == body@,
            i <= s@.len(),
            !(s@.len() > 0 && s@[0] == '"'),
            forall|j: int| 0 <= j < i ==> !(j + 1 < s@.len() && #[trigger] s@[j] == '0' && s@[j + 1] == 'x'),
        decreases s@.len() - i,
    {
        if i + 1 < s.len() && s[i] == '0' && s[i + 1] == 'x' {
            assert(s@[i as int] == '0');
            return "u32";
        }
        i = i + 1;
    }
    "i32"
}

/// The default translation: an object-like macro with a body becomes a
/// constant of the type that `guess_type` gives, with the body as its value;
/// any other macro is skipped.
pub fn translate_macro(def: &CMacro) -> (r: TranslateAction)
    ensures
        match (def.args, def.body) {
            (None, Some(b)) => r matches TranslateAction::TypedConst(d) && d.name@ == def.name@
                && d.const_type@ == guessed_type(b@) && d.expr@ == b@,
            _ => r is Skip,
        },
{
    match (&def.args, &def.body) {
        (None, Some(b)) => {
            let const_type = guess_type(b.as_str()).to_owned();
            TranslateAction::TypedConst(
                ConstDecl { name: def.name.clone(), const_type, expr: b.clone() },
            )
        },
        _ => TranslateAction::Skip,
    }
}

/// The declaration line of a constant.
pub open spec fn decl_line(d: ConstDecl) -> Seq<char> {
    "pub const "@ + d.name@ + ": "@ + d.const_type@ + " = "@ + d.expr@ + ";"@
}

/// The declaration lines of the actions that declare a constant, in order.
pub open spec fn decl_lines(acts: Seq<TranslateAction>) -> Seq<Seq<char>>
    decreases acts.len(),
{
    if acts.len() == 0 {
        seq![]
    } else {
        let prev = decl_lines(acts.drop_last());
        match acts.last() {
            TranslateAction::TypedConst(d) => prev.push(decl_line(d)),
            TranslateAction::Skip => prev,
        }
    }
}

/// Lines joined by single newlines, with none after the last.
pub open spec fn join_lines(ls: Seq<Seq<char>>) -> Seq<char>
    decreases ls.len(),
{
    if ls.len() == 0 {
        seq![]
    } else if ls.len() == 1 {
        ls[0]
    } else {
        join_lines(ls.drop_last()) + seq!['\n'] + ls.last()
    }
}

/// The source text that a sequence of actions gives.
pub open spec fn rendered(acts: Seq<TranslateAction>) -> Seq<char> {
    join_lines(decl_lines(acts))
}

/// Writes one `pub const NAME: TYPE = EXPR;` line for each action that
/// declares a constant, in order, joined by newlines.
pub fn render_actions(actions: &[TranslateAction]) -> (r: String)
    ensures
        r@ == rendered(actions@),
{
    let mut out = String::new();
    let mut any = false;
    let mut i: usize = 0;
    while i < actions.len()
        invariant
            i <= actions@.len(),
            out@ == rendered(actions@.take(i as int)),
            any == (decl_lines(actions@.take(i as int)).len() > 0),
        decreases actions@.len() - i,
    {
        let ghost prev = decl_lines(actions@.take(i as int));
        assert(actions@.take(i + 1).drop_last() =~= actions@.take(i as int));
        match &actions[i] {
            TranslateAction::TypedConst(d) => {
                let ghost before = out@;
                if any {
                    out.append("\n");
                }
                out.append("pub const ");
                out.append(d.name.as_str());
                out.append(": ");
                out.append(d.const_type.as_str());
                out.append(" = ");
                out.append(d.expr.as_str());
                out.append(";");
                assert(prev.push(decl_line(*d)).drop_last() =~= prev);
                proof {
                    reveal_strlit("\n");
                }
                if any {
                    assert(out@ =~= before + seq!['\n'] + decl_line(*d));
                } else {
                    assert(out@ =~= decl_line(*d));
                }
                any = true;
            },
            TranslateAction::Skip => {},
        }
        i = i + 1;
    }
    assert(actions@.take(i as int) =~= actions@);
    out
}

/// No source text comes from actions that all skip, however many there are.
pub proof fn lemma_all_skipped_renders_empty(acts: Seq<TranslateAction>)
    requires
        forall|i: int| 0 <= i < acts.len() ==> #[trigger] acts[i] is Skip,
    ensures
        rendered(acts).len() == 0,
    decreases acts.len(),
{
    if acts.len() > 0 {
        assert forall|i: int| 0 <= i < acts.len() - 1 implies #[trigger] acts.drop_last()[i] is Skip by {
            assert(acts.drop_last()[i] == acts[i]);
        }
        lemma_all_skipped_renders_empty(acts.drop_last());
        assert(acts[acts.len() - 1] is Skip);
    }
}

/// Generates Rust source from macro definitions: `translate_fn` decides for
/// each macro, in order, whether it becomes a constant, and `render_actions`
/// writes what it decided.
pub fn generate_rust_src<TranslateFn>(defs: &[CMacro], translate_fn: TranslateFn) -> (r: String) where
    TranslateFn: Fn(&CMacro) -> TranslateAction,

    requires
        forall|i: int| 0 <= i < defs@.len() ==> translate_fn.requires((&defs@[i],)),
    ensures
        exists|acts: Seq<TranslateAction>|
            {
                &&& acts.len() == defs@.len()
                &&& forall|i: int|
                    0 <= i < defs@.len() ==> translate_fn.ensures((&defs@[i],), #[trigger] acts[i])
                &&& r@ == rendered(acts)
            },
        (forall|d: &CMacro, a: TranslateAction| translate_fn.ensures((d,), a) ==> a is Skip)
            ==> r@.len() == 0,
{
    let mut acts: Vec<TranslateAction> = Vec::new();
    let mut i: usize = 0;
    while i < defs.len()
        invariant
            i <= defs@.len(),
            acts@.len() == i,
            forall|j: int| 0 <= j < defs@.len() ==> translate_fn.requires((&defs@[j],)),
            forall|j: int| 0 <= j < i ==> translate_fn.ensures((&defs@[j],), #[trigger] acts@[j]),
        decreases defs@.len() - i,
    {
        let a = translate_fn(&defs[i]);
        acts.push(a);
        i = i + 1;
    }
    let r = render_actions(acts.as_slice());
    proof {
        if forall|d: &CMacro, a: TranslateAction| translate_fn.ensures((d,), a) ==> a is Skip {
            assert forall|j: int| 0 <= j < acts@.len() implies #[trigger] acts@[j] is Skip by {
                assert(translate_fn.ensures((&defs@[j],), acts@[j]));
            }
            lemma_all_skipped_renders_empty(acts@);
        }
    }
    r
}

} // verus!
