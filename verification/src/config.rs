//! Configuration model for a generation run: where the grammar lives, the
//! text templates for each table entry kind, the display substitutions, and
//! which outputs go to which sink.

use vstd::prelude::*;

use crate::grammar::{str_eq, Grammar, Token};

verus! {

/// A template given either inline or as a path to a file.
#[derive(Debug, Clone, PartialEq, Eq)]
pub enum TemplateSource {
    Inline(String),
    File { file: String },
}

/// A semantic-dispatch template: either a switch built from a per-case
/// template and a body template, or one flat per-case line.
#[derive(Debug, Clone, PartialEq, Eq)]
pub enum SemanticTemplateSource {
    Switch { case: TemplateSource, body: TemplateSource },
    Line { line: TemplateSource },
}

/// One kind of output a sink can receive.
#[derive(Debug, Clone, Copy, PartialEq, Eq, Structural)]
pub enum PrintOption {
    Shift,
    Reduce,
    Goto,
    StateSemantics,
    ReduceSemantics,
    Dot,
}

/// A string given as one line or as several lines to join.
#[derive(Debug, Clone, PartialEq, Eq)]
pub enum SingleOrMultiLineString {
    Single(String),
    Multiline(Vec<String>),
}

/// The lines joined with newlines.
pub open spec fn join_lines(v: Seq<Seq<char>>) -> Seq<char>
    decreases v.len(),
{
    if v.len() == 0 {
        Seq::empty()
    } else if v.len() == 1 {
        v[0]
    } else {
        v[0] + "\n"@ + join_lines(v.drop_first())
    }
}

impl SingleOrMultiLineString {
    /// The configured text: a single line as is, several lines joined with
    /// newlines.
    pub fn to_string(&self) -> (r: String)
        ensures
            r@ == match self {
                SingleOrMultiLineString::Single(s) => s@,
                SingleOrMultiLineString::Multiline(v) => join_lines(
                    v@.map_values(|s: String| s@),
                ),
            },
    {
        match self {
            SingleOrMultiLineString::Single(s) => s.clone(),
            SingleOrMultiLineString::Multiline(v) => {
                let ghost lv = v@.map_values(|s: String| s@);
                let mut r = String::new();
                let n = v.len();
                if n == 0 {
                    proof {
                        assert(join_lines(lv) =~= Seq::<char>::empty());
                    }
                    return r;
                }
                let mut i: usize = 0;
                proof {
                    assert(lv.skip(0) =~= lv);
                }
                while i < n
                    invariant
                        i <= n,
                        n == v@.len(),
                        n >= 1,
                        lv == v@.map_values(|s: String| s@),
                        r@ + join_lines(lv.skip(i as int)) == join_lines(lv),
                    decreases n - i,
                {
                    let ghost pre = r@;
                    r.append(v[i].as_str());
                    if i + 1 < n {
                        r.append("\n");
                    }
                    proof {
                        let rest = lv.skip(i as int);
                        assert(rest[0] == lv[i as int]);
                        assert(rest.drop_first() =~= lv.skip(i as int + 1));
                        if i + 1 < n {
                            assert(rest.len() > 1);
                            assert(join_lines(rest) == rest[0] + "\n"@ + join_lines(
                                rest.drop_first(),
                            ));
                            assert(r@ =~= pre + lv[i as int] + "\n"@);
                            assert(r@ + join_lines(lv.skip(i as int + 1)) =~= pre + join_lines(
                                rest,
                            ));
                            assert(rest.drop_first().len() > 0);
                            assert(lv.skip(i as int + 1)[0] == lv[i + 1]);
                        } else {
                            assert(rest.len() == 1);
                            assert(join_lines(rest) == rest[0]);
                            assert(r@ =~= pre + join_lines(rest));
                            assert(lv.skip(i as int + 1) =~= Seq::<Seq<char>>::empty());
                            assert(r@ + join_lines(lv.skip(i as int + 1)) =~= r@);
                        }
                    }
                    i = i + 1;
                }
                proof {
                    assert(lv.skip(n as int) =~= Seq::<Seq<char>>::empty());
                    assert(r@ =~= r@ + join_lines(lv.skip(n as int)));
                }
                r
            },
        }
    }
}

/// The templates and substitutions for the semantic dispatch tables.
#[derive(Debug, Clone, PartialEq, Eq)]
pub struct SemanticsConfig {
    pub reduce_template: SemanticTemplateSource,
    pub state_template: SemanticTemplateSource,
    pub replacements: Vec<(String, SingleOrMultiLineString)>,
}

/// A full generation run: the grammar path, the entry templates, the token
/// display substitutions, the semantic templates, and the outputs each sink
/// receives.
#[derive(Debug, Clone, PartialEq, Eq)]
pub struct Config {
    pub grammar: String,
    pub reduce_template: TemplateSource,
    pub shift_template: TemplateSource,
    pub goto_template: TemplateSource,
    pub token_replace: Vec<(String, String)>,
    pub semantics: SemanticsConfig,
    pub results: Vec<(String, Vec<PrintOption>)>,
}

/// Looks a display name up in a substitution table.
pub fn lookup_replacement<'a>(map: &'a Vec<(String, String)>, name: &str) -> (r: Option<&'a String>)
    ensures
        match r {
            Some(v) => exists|j: int|
                0 <= j < map@.len() && (#[trigger] map@[j]).0@ == name@ && map@[j].1 == v,
            None => forall|j: int| 0 <= j < map@.len() ==> (#[trigger] map@[j]).0@ != name@,
        },
{
    let mut j: usize = 0;
    while j < map.len()
        invariant
            j <= map@.len(),
            forall|q: int| 0 <= q < j ==> (#[trigger] map@[q]).0@ != name@,
        decreases map@.len() - j,
    {
        if str_eq(map[j].0.as_str(), name) {
            return Some(&map[j].1);
        }
        j = j + 1;
    }
    None
}

/// The display text of a terminal under the substitution table: the
/// replacement when one is configured, else the bare name; the flag reports
/// whether a replacement was found.
pub fn format_token(token: Token, grammar: &Grammar, replacements: &Vec<(String, String)>) -> (r:
    (String, bool))
    requires
        grammar.wf(),
        token.0 < grammar.ntoks(),
    ensures
        r.1 ==> exists|j: int|
            0 <= j < replacements@.len() && (#[trigger] replacements@[j]).0@
                == grammar.tokens@[token.0 as int]@ && replacements@[j].1@ == r.0@,
        !r.1 ==> r.0@ == grammar.tokens@[token.0 as int]@ && (forall|j: int|
            0 <= j < replacements@.len() ==> (#[trigger] replacements@[j]).0@
                != grammar.tokens@[token.0 as int]@),
{
    let name = grammar.get_token(token);
    match lookup_replacement(replacements, name) {
        Some(v) => (v.clone(), true),
        None => (name.to_owned(), false),
    }
}

/// The display text of an optional terminal, with `None` standing for the
/// end-of-input marker `$`.
pub fn format_token_maybe(
    token: Option<Token>,
    grammar: &Grammar,
    replacements: &Vec<(String, String)>,
) -> (r: (String, bool))
    requires
        grammar.wf(),
        token matches Some(t) ==> t.0 < grammar.ntoks(),
    ensures
        ({
            let name = match token {
                Some(t) => grammar.tokens@[t.0 as int]@,
                None => "$"@,
            };
            &&& (r.1 ==> exists|j: int|
                0 <= j < replacements@.len() && (#[trigger] replacements@[j]).0@ == name
                    && replacements@[j].1@ == r.0@)
            &&& (!r.1 ==> r.0@ == name && (forall|j: int|
                0 <= j < replacements@.len() ==> (#[trigger] replacements@[j]).0@ != name))
        }),
{
    let name: &str = match token {
        Some(t) => grammar.get_token(t),
        None => "$",
    };
    match lookup_replacement(replacements, name) {
        Some(v) => (v.clone(), true),
        None => (name.to_owned(), false),
    }
}

} // verus!
