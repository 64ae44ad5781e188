//! What holds of constrained decoding as a whole.
use vstd::prelude::*;
use crate::filter::automaton::{sound_from, step, Elem, Frame};
use crate::filter::language::{bytes_agree_with_text, codes, in_language, matcher_accepts_the_language};
use crate::filter::matcher::{feed_all, initial, some_done};
use crate::filter::state::{
    allowed_from, count_live, eaten, fed, fed_all, finished, fresh, live, piece_at, sets_taken, together, Filtering,
};
use crate::filter::trie::findable;

verus! {

/// A token that the mask of a live filter allows does not violate the grammar, and one that it
/// denies does, where its piece is not empty.
pub proof fn masks_decide_violation(f: Filtering, tok: i64)
    requires
        live(f),
        !f.dead,
        findable(f.table, tok as int),
        tok < f.width,
    ensures
        fed(f, tok).dead == !allowed_from(f, f.stacks).contains(tok as int),
{
    let text = piece_at(f.table, tok);
    bytes_agree_with_text(f.rules, f.stacks, text);
    assert(text.len() > 0) by {
        if text.len() == 0 {
            assert(text =~= seq![]);
            assert(vstd::utf8::encode_utf8(text).len() == 0);
        }
    }
}

proof fn lemma_live_counts(fs: Seq<Filtering>, i: int)
    requires
        0 <= i < fs.len(),
        live(fs[i]),
    ensures
        count_live(fs) >= 1,
    decreases fs.len(),
{
    if i < fs.len() - 1 {
        assert(fs.drop_last()[i] == fs[i]);
        lemma_live_counts(fs.drop_last(), i);
    }
}

proof fn lemma_sole_live(fs: Seq<Filtering>, i: int, j: int)
    requires
        count_live(fs) == 1,
        0 <= i < fs.len(),
        0 <= j < fs.len(),
        live(fs[i]),
        live(fs[j]),
    ensures
        i == j,
    decreases fs.len(),
{
    let rest = fs.drop_last();
    if i < rest.len() && j < rest.len() {
        assert(rest[i] == fs[i] && rest[j] == fs[j]);
        lemma_live_counts(rest, i);
        lemma_sole_live(rest, i, j);
    } else if i < rest.len() {
        assert(rest[i] == fs[i]);
        lemma_live_counts(rest, i);
    } else if j < rest.len() {
        assert(rest[j] == fs[j]);
        lemma_live_counts(rest, j);
    }
}

proof fn lemma_some_live(fs: Seq<Filtering>) -> (i: int)
    requires
        count_live(fs) > 0,
    ensures
        0 <= i < fs.len(),
        live(fs[i]),
    decreases fs.len(),
{
    if live(fs.last()) {
        fs.len() - 1
    } else {
        let i = lemma_some_live(fs.drop_last());
        assert(fs.drop_last()[i] == fs[i]);
        i
    }
}

/// Of the tokens that the tables of all live filters have, what the grammars together refuse is what
/// would violate one of them.
pub proof fn refused_tokens_violate_a_grammar(fs: Seq<Filtering>, width: nat, tok: i64)
    requires
        count_live(fs) > 0,
        0 <= tok < width,
        tok < fs[0].width,
        forall|i: int|
            0 <= i < fs.len() && live(#[trigger] fs[i]) ==> !fs[i].dead && findable(fs[i].table, tok as int) && tok
                < fs[i].width,
    ensures
        together(fs, sets_taken(fs), width)->0[tok as int] == forall|i: int|
            0 <= i < fs.len() && live(#[trigger] fs[i]) ==> !fed(fs[i], tok).dead,
{
    let sets = sets_taken(fs);
    assert forall|i: int| 0 <= i < fs.len() && live(#[trigger] fs[i]) implies fed(fs[i], tok).dead == !sets[i].contains(
        tok as int,
    ) by {
        masks_decide_violation(fs[i], tok);
    }
    if count_live(fs) == 1 {
        let w = lemma_some_live(fs);
        let i = choose|i: int| 0 <= i < fs.len() && live(#[trigger] fs[i]);
        assert forall|j: int| 0 <= j < fs.len() && live(#[trigger] fs[j]) implies j == i by {
            lemma_sole_live(fs, i, j);
        }
    }
}

/// The text of tokens.
pub open spec fn spoken(table: Seq<Seq<char>>, toks: Seq<i64>) -> Seq<char>
    decreases toks.len(),
{
    if toks.len() == 0 {
        seq![]
    } else {
        spoken(table, toks.drop_last()) + piece_at(table, toks.last())
    }
}

/// Whether a filter was live for every one of the tokens.
pub open spec fn live_throughout(f: Filtering, toks: Seq<i64>) -> bool {
    forall|k: int| 0 <= k < toks.len() ==> live(#[trigger] fed_all(f, toks.take(k)))
}

proof fn lemma_feed_more(rs: Seq<Seq<Elem>>, stacks: Seq<Seq<Frame>>, a: Seq<char>, b: Seq<char>)
    requires
        !feed_all(rs, stacks, a).1,
    ensures
        feed_all(rs, stacks, a + b) == feed_all(rs, feed_all(rs, stacks, a).0, b),
    decreases a.len(),
{
    if a.len() == 0 {
        assert(a + b =~= b);
    } else {
        assert((a + b).drop_first() =~= a.drop_first() + b);
        let next = step(rs, stacks, a[0] as u32);
        lemma_feed_more(rs, next, a.drop_first(), b);
    }
}

proof fn lemma_fed_text(f: Filtering, toks: Seq<i64>)
    requires
        f == fresh(f),
        f.trigger is None,
        live_throughout(f, toks),
        !fed_all(f, toks).dead,
    ensures
        feed_all(f.rules, initial(f.rules, f.root), spoken(f.table, toks)) == (fed_all(f, toks).stacks, false),
        fed_all(f, toks) == (Filtering {
            stacks: fed_all(f, toks).stacks,
            active: fed_all(f, toks).active,
            journal: fed_all(f, toks).journal,
            ..f
        }),
    decreases toks.len(),
{
    if toks.len() > 0 {
        let before = toks.drop_last();
        let g = fed_all(f, before);
        assert(toks.take(toks.len() - 1) =~= before);
        assert(live(fed_all(f, toks.take(toks.len() - 1))));
        assert(!g.dead) by {
            assert(fed(g, toks.last()) == fed_all(f, toks));
            if g.dead {
                assert(eaten(g, toks.last()).dead);
            }
        }
        assert(live_throughout(f, before)) by {
            assert forall|k: int| 0 <= k < before.len() implies live(#[trigger] fed_all(f, before.take(k))) by {
                assert(before.take(k) =~= toks.take(k));
                assert(live(fed_all(f, toks.take(k))));
            }
        }
        lemma_fed_text(f, before);
        let text = piece_at(f.table, toks.last());
        lemma_feed_more(f.rules, initial(f.rules, f.root), spoken(f.table, before), text);
        assert(feed_all(f.rules, g.stacks, seq![]) == (g.stacks, false));
        if text.len() == 0 {
            assert(text =~= seq![]);
        }
    }
}

/// Where tokens are fed to a filter that is live for each and is not violated, what they spell is
/// in the language of the grammar exactly when the grammar could stop there; and it is where the
/// filter is complete.
pub proof fn completed_filters_spell_the_language(f: Filtering, toks: Seq<i64>)
    requires
        f == fresh(f),
        f.trigger is None,
        sound_from(f.rules, f.root),
        live_throughout(f, toks),
        !fed_all(f, toks).dead,
    ensures
        some_done(fed_all(f, toks).stacks) == in_language(
            f.rules,
            f.root,
            codes(spoken(f.table, toks)),
        ),
        finished(fed_all(f, toks)) ==> in_language(f.rules, f.root, codes(spoken(f.table, toks))),
{
    lemma_fed_text(f, toks);
    matcher_accepts_the_language(f.rules, f.root, spoken(f.table, toks));
    let stacks = fed_all(f, toks).stacks;
    if finished(fed_all(f, toks)) {
        assert(stacks[0].len() == 0);
        assert(some_done(stacks));
    }
}

/// A filter with a trigger lets every token pass until that one comes, and constrains from then
/// on, from the start of its grammar; one without a trigger constrains from the start.
pub proof fn filters_wait_for_their_trigger(f: Filtering, toks: Seq<i64>, t: i64)
    requires
        !toks.contains(t),
    ensures
        f.trigger is None ==> fresh(f).active,
        f.trigger == Some(t) ==> !fresh(f).active && !live(fed_all(fresh(f), toks)),
        f.trigger == Some(t) ==> ({
            let g = fed(fed_all(fresh(f), toks), t);
            g.active && !g.dead && g.stacks == initial(f.rules, f.root)
        }),
{
    if f.trigger == Some(t) {
        lemma_waits(fresh(f), toks, t);
    }
}

proof fn lemma_waits(f: Filtering, toks: Seq<i64>, t: i64)
    requires
        !f.active,
        f.trigger == Some(t),
        !toks.contains(t),
    ensures
        fed_all(f, toks) == (Filtering { journal: fed_all(f, toks).journal, ..f }),
    decreases toks.len(),
{
    if toks.len() > 0 {
        assert(toks.contains(toks.last()));
        let less = toks.drop_last();
        if less.contains(t) {
            let k = choose|k: int| 0 <= k < less.len() && less[k] == t;
            assert(toks[k] == t);
        }
        lemma_waits(f, less, t);
    }
}

/// A filter whose grammar is completed constrains no further token, until its trigger comes again:
/// then it starts anew.
pub proof fn completed_filters_rest(f: Filtering, tok: i64, toks: Seq<i64>, t: i64)
    requires
        f.active,
        finished(eaten(f, tok)),
        f.trigger == Some(t),
        !toks.contains(t),
    ensures
        !fed(f, tok).active,
        !live(fed_all(fed(f, tok), toks)),
        ({
            let g = fed(fed_all(fed(f, tok), toks), t);
            g.active && !g.dead && g.stacks == initial(f.rules, f.root)
        }),
{
    lemma_waits(fed(f, tok), toks, t);
}

} // verus!
