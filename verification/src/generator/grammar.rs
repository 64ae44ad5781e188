//! Filters from grammars and schemas, for jobs whose output is constrained.
use std::sync::Arc;
use vstd::prelude::*;
use crate::filter::automaton::{sound_from, Elem};
use crate::filter::constants::{constants_accept_their_text, enumerations_accept_their_texts};
use crate::filter::forms::schemas_compile;
use crate::filter::gbnf::{error_text, parse, Grammar};
use crate::filter::json_schema::{any_json, any_text, compile, def_names, schema_text};
use crate::filter::matcher::{initial, Matcher};
use crate::filter::ranking::any_object_is_sound;
use crate::filter::schemas::{ranked, ranked_schemas_are_sound, schemas_without_definitions_are_ranked};
use crate::filter::state::{Filtering, FilterState};
use crate::filter::syntax::{grammar_of, GrammarError};
use crate::filter::trie::VocabTrie;
use crate::json::{list_at, member, text_at, Json};
use crate::text::{chars_of, push_text, string_of};

verus! {

/// Why there is no filter.
pub enum FilterError {
    /// The grammar does not parse.
    Message(String),
    /// A rule that can be reached is not defined, or refers to itself before it takes anything.
    Unsound,
}

/// Whether this is the filter for the grammar of this text, or why there is none.
pub open spec fn filters(text: Seq<char>, what: Seq<char>, trie: VocabTrie, r: Result<FilterState, FilterError>) -> bool {
    match grammar_of(text) {
        Err(e) => r matches Err(FilterError::Message(m)) && m@ == what + error_text(e),
        Ok((rules, root)) => if sound_from(rules, root) {
            &&& r matches Ok(f)
            &&& f.inv()
            &&& f.now() == (Filtering {
                rules,
                root,
                stacks: initial(rules, root),
                dead: false,
                table: trie.table(),
                width: trie.width(),
                trigger: None,
                stops: true,
                active: true,
                journal: seq![],
            })
        } else {
            r matches Err(FilterError::Unsound)
        },
    }
}

fn filter_of(parsed: Result<Grammar, String>, what: &str, trie: &Arc<VocabTrie>, Ghost(text): Ghost<Seq<char>>) -> (r:
    Result<FilterState, FilterError>)
    requires
        trie.inv(),
        match parsed {
            Ok(g) => grammar_of(text) == Ok::<(Seq<Seq<Elem>>, int), GrammarError>((g.model(), g.root as int)),
            Err(m) => exists|e: GrammarError|
                grammar_of(text) == Err::<(Seq<Seq<Elem>>, int), GrammarError>(e) && m@ == #[trigger] error_text(e),
        },
    ensures
        filters(text, what@, **trie, r),
{
    match parsed {
        Err(e) => {
            let mut m = chars_of(what);
            push_text(&mut m, e.as_str());
            Err(FilterError::Message(string_of(&m)))
        },
        Ok(g) => {
            if !g.is_sound() {
                return Err(FilterError::Unsound);
            }
            let matcher = Matcher::new(Arc::new(g));
            Ok(FilterState::new(matcher, trie.clone(), None, true))
        },
    }
}

/// The filter of a grammar. A job stops when it completes the grammar.
pub fn compile_grammar(gbnf: &str, trie: &Arc<VocabTrie>) -> (r: Result<FilterState, FilterError>)
    requires
        trie.inv(),
    ensures
        filters(gbnf@, "grammar: "@, **trie, r),
{
    filter_of(parse(gbnf), "grammar: ", trie, Ghost(gbnf@))
}

/// The filter of a JSON schema. There is one unless a definition leads to itself before it takes
/// input.
pub fn compile_json_schema(schema: &Json, trie: &Arc<VocabTrie>) -> (r: Result<FilterState, FilterError>)
    requires
        trie.inv(),
    ensures
        filters(schema_text(*schema), "json schema: "@, **trie, r),
        r is Ok || r matches Err(FilterError::Unsound),
        (exists|f: spec_fn(Seq<char>) -> nat| ranked(*schema, f)) ==> r is Ok,
        def_names(*schema).len() == 0 ==> r is Ok,
        text_at(*schema, "$ref"@) is None && member(*schema, "const"@) is Some ==> r is Ok,
        text_at(*schema, "$ref"@) is None && (list_at(*schema, "enum"@) matches Some(vs) && vs.len() > 0) ==> r is Ok,
{
    let parsed = compile(schema);
    proof {
        schemas_compile(*schema);
        assert(parsed is Ok ==> parsed->Ok_0.rules@.len() == parsed->Ok_0.rules.len());
        if def_names(*schema).len() == 0 {
            schemas_without_definitions_are_ranked(*schema, |name: Seq<char>| 0nat);
        }
        if exists|f: spec_fn(Seq<char>) -> nat| ranked(*schema, f) {
            ranked_schemas_are_sound(*schema, choose|f: spec_fn(Seq<char>) -> nat| ranked(*schema, f));
        }
        if text_at(*schema, "$ref"@) is None {
            if member(*schema, "const"@) is Some {
                constants_accept_their_text(*schema, member(*schema, "const"@)->0);
            } else if list_at(*schema, "enum"@) is Some && list_at(*schema, "enum"@)->0.len() > 0 {
                enumerations_accept_their_texts(*schema, list_at(*schema, "enum"@)->0);
            }
        }
    }
    filter_of(parsed, "json schema: ", trie, Ghost(schema_text(*schema)))
}

/// The filter of any JSON object. There always is one.
pub fn compile_json_object(trie: &Arc<VocabTrie>) -> (r: Result<FilterState, FilterError>)
    requires
        trie.inv(),
    ensures
        filters(any_text(), "json: "@, **trie, r),
        r is Ok,
{
    let parsed = any_json();
    proof {
        any_object_is_sound();
        assert(parsed is Ok ==> parsed->Ok_0.rules@.len() == parsed->Ok_0.rules.len());
    }
    filter_of(parsed, "json: ", trie, Ghost(any_text()))
}

} // verus!
