//! The rules that every schema's grammar starts with are well formed.
use vstd::prelude::*;
use crate::filter::drafts::{
    alternates_end, lemma_atom_class, lemma_atom_group, lemma_atom_literal, lemma_atom_name, lemma_bar,
    lemma_bars_end, lemma_class_char, lemma_class_close, lemma_class_escape, lemma_class_range, lemma_item,
    lemma_items_end, lemma_literal_escape, lemma_literal_run,
};
use crate::filter::json_schema::{
    prelude, ARRAY_RULE, BOOLEAN_RULE, INTEGER_RULE, NULL_RULE, NUMBER_RULE, OBJECT_RULE, STRING_RULE, VALUE_RULE, WS_RULE,
};
use crate::filter::reading::{clean, lemma_no_comment};

verus! {

/// The rule of `ws` stands on one line, without a comment.
proof fn lemma_ws_line()
    ensures
        clean(("ws"@, WS_RULE@)),
{
    reveal_strlit("ws");
    reveal_strlit("[ \\t\\n]*");
    let r = WS_RULE@;
    assert forall|i: int| 0 <= i < r.len() implies #[trigger] r[i] != '\n' && r[i] != '#' by {}
    lemma_no_comment(r, 0, None);
}

/// The rule of `ws` is well formed.
proof fn lemma_ws_rule()
    ensures
        alternates_end(seq![' '] + WS_RULE@, 0, false) is Some,
{
    reveal_strlit("[ \\t\\n]*");
    let s = seq![' '] + WS_RULE@;
    lemma_atom_class(s, 1);
    lemma_class_char(s, 2, true);
    lemma_class_escape(s, 3, false);
    lemma_class_escape(s, 5, false);
    lemma_class_close(s, 7);
    lemma_item(s, 0, 1, 8, 9, false);
    lemma_items_end(s, 9, 9, false);
    lemma_bars_end(s, 0, 9, false);
}

/// The rule of `string` stands on one line, without a comment.
proof fn lemma_string_line()
    ensures
        clean(("string"@, STRING_RULE@)),
{
    reveal_strlit("string");
    reveal_strlit("\"\\\"\" ( [^\"\\\\] | \"\\\\\" [\"\\\\/bfnrt] | \"\\\\u\" [0-9a-fA-F] [0-9a-fA-F] [0-9a-fA-F] [0-9a-fA-F] )* \"\\\"\"");
    let r = STRING_RULE@;
    assert forall|i: int| 0 <= i < r.len() implies #[trigger] r[i] != '\n' && r[i] != '#' by {}
    lemma_no_comment(r, 0, None);
}

/// The rule of `string` is well formed.
proof fn lemma_string_rule()
    ensures
        alternates_end(seq![' '] + STRING_RULE@, 0, false) is Some,
{
    reveal_strlit("\"\\\"\" ( [^\"\\\\] | \"\\\\\" [\"\\\\/bfnrt] | \"\\\\u\" [0-9a-fA-F] [0-9a-fA-F] [0-9a-fA-F] [0-9a-fA-F] )* \"\\\"\"");
    let s = seq![' '] + STRING_RULE@;
    lemma_atom_literal(s, 1);
    lemma_literal_escape(s, 2);
    lemma_literal_run(s, 4, 4);
    lemma_item(s, 0, 1, 5, 6, false);
    lemma_atom_class(s, 8);
    lemma_class_char(s, 10, true);
    lemma_class_escape(s, 11, false);
    lemma_class_close(s, 13);
    lemma_item(s, 7, 8, 14, 15, true);
    lemma_items_end(s, 15, 15, true);
    lemma_bar(s, 7, 15, true);
    lemma_atom_literal(s, 17);
    lemma_literal_escape(s, 18);
    lemma_literal_run(s, 20, 20);
    lemma_item(s, 16, 17, 21, 22, true);
    lemma_atom_class(s, 22);
    lemma_class_char(s, 23, true);
    lemma_class_escape(s, 24, false);
    lemma_class_char(s, 26, false);
    lemma_class_char(s, 27, false);
    lemma_class_char(s, 28, false);
    lemma_class_char(s, 29, false);
    lemma_class_char(s, 30, false);
    lemma_class_char(s, 31, false);
    lemma_class_close(s, 32);
    lemma_item(s, 22, 22, 33, 34, true);
    lemma_items_end(s, 34, 34, true);
    lemma_bar(s, 16, 34, true);
    lemma_atom_literal(s, 36);
    lemma_literal_escape(s, 37);
    lemma_literal_run(s, 39, 40);
    lemma_item(s, 35, 36, 41, 42, true);
    lemma_atom_class(s, 42);
    lemma_class_range(s, 43, true);
    lemma_class_range(s, 46, false);
    lemma_class_range(s, 49, false);
    lemma_class_close(s, 52);
    lemma_item(s, 42, 42, 53, 54, true);
    lemma_atom_class(s, 54);
    lemma_class_range(s, 55, true);
    lemma_class_range(s, 58, false);
    lemma_class_range(s, 61, false);
    lemma_class_close(s, 64);
    lemma_item(s, 54, 54, 65, 66, true);
    lemma_atom_class(s, 66);
    lemma_class_range(s, 67, true);
    lemma_class_range(s, 70, false);
    lemma_class_range(s, 73, false);
    lemma_class_close(s, 76);
    lemma_item(s, 66, 66, 77, 78, true);
    lemma_atom_class(s, 78);
    lemma_class_range(s, 79, true);
    lemma_class_range(s, 82, false);
    lemma_class_range(s, 85, false);
    lemma_class_close(s, 88);
    lemma_item(s, 78, 78, 89, 90, true);
    lemma_items_end(s, 90, 90, true);
    lemma_bars_end(s, 35, 90, true);
    lemma_atom_group(s, 6, 90);
    lemma_item(s, 6, 6, 91, 92, false);
    lemma_atom_literal(s, 93);
    lemma_literal_escape(s, 94);
    lemma_literal_run(s, 96, 96);
    lemma_item(s, 92, 93, 97, 97, false);
    lemma_items_end(s, 97, 97, false);
    lemma_bars_end(s, 0, 97, false);
}

/// The rule of `integer` stands on one line, without a comment.
proof fn lemma_integer_line()
    ensures
        clean(("integer"@, INTEGER_RULE@)),
{
    reveal_strlit("integer");
    reveal_strlit("\"-\"? ( \"0\" | [1-9] [0-9]* )");
    let r = INTEGER_RULE@;
    assert forall|i: int| 0 <= i < r.len() implies #[trigger] r[i] != '\n' && r[i] != '#' by {}
    lemma_no_comment(r, 0, None);
}

/// The rule of `integer` is well formed.
proof fn lemma_integer_rule()
    ensures
        alternates_end(seq![' '] + INTEGER_RULE@, 0, false) is Some,
{
    reveal_strlit("\"-\"? ( \"0\" | [1-9] [0-9]* )");
    let s = seq![' '] + INTEGER_RULE@;
    lemma_atom_literal(s, 1);
    lemma_literal_run(s, 2, 3);
    lemma_item(s, 0, 1, 4, 5, false);
    lemma_atom_literal(s, 8);
    lemma_literal_run(s, 9, 10);
    lemma_item(s, 7, 8, 11, 12, true);
    lemma_items_end(s, 12, 12, true);
    lemma_bar(s, 7, 12, true);
    lemma_atom_class(s, 14);
    lemma_class_range(s, 15, true);
    lemma_class_close(s, 18);
    lemma_item(s, 13, 14, 19, 20, true);
    lemma_atom_class(s, 20);
    lemma_class_range(s, 21, true);
    lemma_class_close(s, 24);
    lemma_item(s, 20, 20, 25, 26, true);
    lemma_items_end(s, 26, 27, true);
    lemma_bars_end(s, 13, 27, true);
    lemma_atom_group(s, 6, 27);
    lemma_item(s, 5, 6, 28, 28, false);
    lemma_items_end(s, 28, 28, false);
    lemma_bars_end(s, 0, 28, false);
}

/// The rule of `number` stands on one line, without a comment.
proof fn lemma_number_line()
    ensures
        clean(("number"@, NUMBER_RULE@)),
{
    reveal_strlit("number");
    reveal_strlit("\"-\"? ( \"0\" | [1-9] [0-9]* ) ( \".\" [0-9]+ )? ( [eE] [-+]? [0-9]+ )?");
    let r = NUMBER_RULE@;
    assert forall|i: int| 0 <= i < r.len() implies #[trigger] r[i] != '\n' && r[i] != '#' by {}
    lemma_no_comment(r, 0, None);
}

/// The rule of `number` is well formed.
proof fn lemma_number_rule()
    ensures
        alternates_end(seq![' '] + NUMBER_RULE@, 0, false) is Some,
{
    reveal_strlit("\"-\"? ( \"0\" | [1-9] [0-9]* ) ( \".\" [0-9]+ )? ( [eE] [-+]? [0-9]+ )?");
    let s = seq![' '] + NUMBER_RULE@;
    lemma_atom_literal(s, 1);
    lemma_literal_run(s, 2, 3);
    lemma_item(s, 0, 1, 4, 5, false);
    lemma_atom_literal(s, 8);
    lemma_literal_run(s, 9, 10);
    lemma_item(s, 7, 8, 11, 12, true);
    lemma_items_end(s, 12, 12, true);
    lemma_bar(s, 7, 12, true);
    lemma_atom_class(s, 14);
    lemma_class_range(s, 15, true);
    lemma_class_close(s, 18);
    lemma_item(s, 13, 14, 19, 20, true);
    lemma_atom_class(s, 20);
    lemma_class_range(s, 21, true);
    lemma_class_close(s, 24);
    lemma_item(s, 20, 20, 25, 26, true);
    lemma_items_end(s, 26, 27, true);
    lemma_bars_end(s, 13, 27, true);
    lemma_atom_group(s, 6, 27);
    lemma_item(s, 5, 6, 28, 29, false);
    lemma_atom_literal(s, 31);
    lemma_literal_run(s, 32, 33);
    lemma_item(s, 30, 31, 34, 35, true);
    lemma_atom_class(s, 35);
    lemma_class_range(s, 36, true);
    lemma_class_close(s, 39);
    lemma_item(s, 35, 35, 40, 41, true);
    lemma_items_end(s, 41, 42, true);
    lemma_bars_end(s, 30, 42, true);
    lemma_atom_group(s, 29, 42);
    lemma_item(s, 29, 29, 43, 44, false);
    lemma_atom_class(s, 47);
    lemma_class_char(s, 48, true);
    lemma_class_char(s, 49, false);
    lemma_class_close(s, 50);
    lemma_item(s, 46, 47, 51, 52, true);
    lemma_atom_class(s, 52);
    lemma_class_char(s, 53, true);
    lemma_class_char(s, 54, false);
    lemma_class_close(s, 55);
    lemma_item(s, 52, 52, 56, 57, true);
    lemma_atom_class(s, 58);
    lemma_class_range(s, 59, true);
    lemma_class_close(s, 62);
    lemma_item(s, 57, 58, 63, 64, true);
    lemma_items_end(s, 64, 65, true);
    lemma_bars_end(s, 46, 65, true);
    lemma_atom_group(s, 45, 65);
    lemma_item(s, 44, 45, 66, 67, false);
    lemma_items_end(s, 67, 67, false);
    lemma_bars_end(s, 0, 67, false);
}

/// The rule of `boolean` stands on one line, without a comment.
proof fn lemma_boolean_line()
    ensures
        clean(("boolean"@, BOOLEAN_RULE@)),
{
    reveal_strlit("boolean");
    reveal_strlit("\"true\" | \"false\"");
    let r = BOOLEAN_RULE@;
    assert forall|i: int| 0 <= i < r.len() implies #[trigger] r[i] != '\n' && r[i] != '#' by {}
    lemma_no_comment(r, 0, None);
}

/// The rule of `boolean` is well formed.
proof fn lemma_boolean_rule()
    ensures
        alternates_end(seq![' '] + BOOLEAN_RULE@, 0, false) is Some,
{
    reveal_strlit("\"true\" | \"false\"");
    let s = seq![' '] + BOOLEAN_RULE@;
    lemma_atom_literal(s, 1);
    lemma_literal_run(s, 2, 6);
    lemma_item(s, 0, 1, 7, 8, false);
    lemma_items_end(s, 8, 8, false);
    lemma_bar(s, 0, 8, false);
    lemma_atom_literal(s, 10);
    lemma_literal_run(s, 11, 16);
    lemma_item(s, 9, 10, 17, 17, false);
    lemma_items_end(s, 17, 17, false);
    lemma_bars_end(s, 9, 17, false);
}

/// The rule of `null` stands on one line, without a comment.
proof fn lemma_null_line()
    ensures
        clean(("null"@, NULL_RULE@)),
{
    reveal_strlit("null");
    reveal_strlit("\"null\"");
    let r = NULL_RULE@;
    assert forall|i: int| 0 <= i < r.len() implies #[trigger] r[i] != '\n' && r[i] != '#' by {}
    lemma_no_comment(r, 0, None);
}

/// The rule of `null` is well formed.
proof fn lemma_null_rule()
    ensures
        alternates_end(seq![' '] + NULL_RULE@, 0, false) is Some,
{
    reveal_strlit("\"null\"");
    let s = seq![' '] + NULL_RULE@;
    lemma_atom_literal(s, 1);
    lemma_literal_run(s, 2, 6);
    lemma_item(s, 0, 1, 7, 7, false);
    lemma_items_end(s, 7, 7, false);
    lemma_bars_end(s, 0, 7, false);
}

/// The rule of `value` stands on one line, without a comment.
proof fn lemma_value_line()
    ensures
        clean(("value"@, VALUE_RULE@)),
{
    reveal_strlit("value");
    reveal_strlit("object | array | string | number | boolean | null");
    let r = VALUE_RULE@;
    assert forall|i: int| 0 <= i < r.len() implies #[trigger] r[i] != '\n' && r[i] != '#' by {}
    lemma_no_comment(r, 0, None);
}

/// The rule of `value` is well formed.
proof fn lemma_value_rule()
    ensures
        alternates_end(seq![' '] + VALUE_RULE@, 0, false) is Some,
{
    reveal_strlit("object | array | string | number | boolean | null");
    let s = seq![' '] + VALUE_RULE@;
    lemma_atom_name(s, 1, 7);
    lemma_item(s, 0, 1, 7, 8, false);
    lemma_items_end(s, 8, 8, false);
    lemma_bar(s, 0, 8, false);
    lemma_atom_name(s, 10, 15);
    lemma_item(s, 9, 10, 15, 16, false);
    lemma_items_end(s, 16, 16, false);
    lemma_bar(s, 9, 16, false);
    lemma_atom_name(s, 18, 24);
    lemma_item(s, 17, 18, 24, 25, false);
    lemma_items_end(s, 25, 25, false);
    lemma_bar(s, 17, 25, false);
    lemma_atom_name(s, 27, 33);
    lemma_item(s, 26, 27, 33, 34, false);
    lemma_items_end(s, 34, 34, false);
    lemma_bar(s, 26, 34, false);
    lemma_atom_name(s, 36, 43);
    lemma_item(s, 35, 36, 43, 44, false);
    lemma_items_end(s, 44, 44, false);
    lemma_bar(s, 35, 44, false);
    lemma_atom_name(s, 46, 50);
    lemma_item(s, 45, 46, 50, 50, false);
    lemma_items_end(s, 50, 50, false);
    lemma_bars_end(s, 45, 50, false);
}

/// The rule of `object` stands on one line, without a comment.
proof fn lemma_object_line()
    ensures
        clean(("object"@, OBJECT_RULE@)),
{
    reveal_strlit("object");
    reveal_strlit("\"{\" ws ( string ws \":\" ws value ( ws \",\" ws string ws \":\" ws value )* )? ws \"}\"");
    let r = OBJECT_RULE@;
    assert forall|i: int| 0 <= i < r.len() implies #[trigger] r[i] != '\n' && r[i] != '#' by {}
    lemma_no_comment(r, 0, None);
}

/// The rule of `object` is well formed.
proof fn lemma_object_rule()
    ensures
        alternates_end(seq![' '] + OBJECT_RULE@, 0, false) is Some,
{
    reveal_strlit("\"{\" ws ( string ws \":\" ws value ( ws \",\" ws string ws \":\" ws value )* )? ws \"}\"");
    let s = seq![' '] + OBJECT_RULE@;
    lemma_atom_literal(s, 1);
    lemma_literal_run(s, 2, 3);
    lemma_item(s, 0, 1, 4, 5, false);
    lemma_atom_name(s, 5, 7);
    lemma_item(s, 5, 5, 7, 8, false);
    lemma_atom_name(s, 10, 16);
    lemma_item(s, 9, 10, 16, 17, true);
    lemma_atom_name(s, 17, 19);
    lemma_item(s, 17, 17, 19, 20, true);
    lemma_atom_literal(s, 20);
    lemma_literal_run(s, 21, 22);
    lemma_item(s, 20, 20, 23, 24, true);
    lemma_atom_name(s, 24, 26);
    lemma_item(s, 24, 24, 26, 27, true);
    lemma_atom_name(s, 27, 32);
    lemma_item(s, 27, 27, 32, 33, true);
    lemma_atom_name(s, 35, 37);
    lemma_item(s, 34, 35, 37, 38, true);
    lemma_atom_literal(s, 38);
    lemma_literal_run(s, 39, 40);
    lemma_item(s, 38, 38, 41, 42, true);
    lemma_atom_name(s, 42, 44);
    lemma_item(s, 42, 42, 44, 45, true);
    lemma_atom_name(s, 45, 51);
    lemma_item(s, 45, 45, 51, 52, true);
    lemma_atom_name(s, 52, 54);
    lemma_item(s, 52, 52, 54, 55, true);
    lemma_atom_literal(s, 55);
    lemma_literal_run(s, 56, 57);
    lemma_item(s, 55, 55, 58, 59, true);
    lemma_atom_name(s, 59, 61);
    lemma_item(s, 59, 59, 61, 62, true);
    lemma_atom_name(s, 62, 67);
    lemma_item(s, 62, 62, 67, 68, true);
    lemma_items_end(s, 68, 68, true);
    lemma_bars_end(s, 34, 68, true);
    lemma_atom_group(s, 33, 68);
    lemma_item(s, 33, 33, 69, 70, true);
    lemma_items_end(s, 70, 71, true);
    lemma_bars_end(s, 9, 71, true);
    lemma_atom_group(s, 8, 71);
    lemma_item(s, 8, 8, 72, 73, false);
    lemma_atom_name(s, 74, 76);
    lemma_item(s, 73, 74, 76, 77, false);
    lemma_atom_literal(s, 77);
    lemma_literal_run(s, 78, 79);
    lemma_item(s, 77, 77, 80, 80, false);
    lemma_items_end(s, 80, 80, false);
    lemma_bars_end(s, 0, 80, false);
}

/// The rule of `array` stands on one line, without a comment.
proof fn lemma_array_line()
    ensures
        clean(("array"@, ARRAY_RULE@)),
{
    reveal_strlit("array");
    reveal_strlit("\"[\" ws ( value ( ws \",\" ws value )* )? ws \"]\"");
    let r = ARRAY_RULE@;
    assert forall|i: int| 0 <= i < r.len() implies #[trigger] r[i] != '\n' && r[i] != '#' by {}
    lemma_no_comment(r, 0, None);
}

/// The rule of `array` is well formed.
proof fn lemma_array_rule()
    ensures
        alternates_end(seq![' '] + ARRAY_RULE@, 0, false) is Some,
{
    reveal_strlit("\"[\" ws ( value ( ws \",\" ws value )* )? ws \"]\"");
    let s = seq![' '] + ARRAY_RULE@;
    lemma_atom_literal(s, 1);
    lemma_literal_run(s, 2, 3);
    lemma_item(s, 0, 1, 4, 5, false);
    lemma_atom_name(s, 5, 7);
    lemma_item(s, 5, 5, 7, 8, false);
    lemma_atom_name(s, 10, 15);
    lemma_item(s, 9, 10, 15, 16, true);
    lemma_atom_name(s, 18, 20);
    lemma_item(s, 17, 18, 20, 21, true);
    lemma_atom_literal(s, 21);
    lemma_literal_run(s, 22, 23);
    lemma_item(s, 21, 21, 24, 25, true);
    lemma_atom_name(s, 25, 27);
    lemma_item(s, 25, 25, 27, 28, true);
    lemma_atom_name(s, 28, 33);
    lemma_item(s, 28, 28, 33, 34, true);
    lemma_items_end(s, 34, 34, true);
    lemma_bars_end(s, 17, 34, true);
    lemma_atom_group(s, 16, 34);
    lemma_item(s, 16, 16, 35, 36, true);
    lemma_items_end(s, 36, 37, true);
    lemma_bars_end(s, 9, 37, true);
    lemma_atom_group(s, 8, 37);
    lemma_item(s, 8, 8, 38, 39, false);
    lemma_atom_name(s, 40, 42);
    lemma_item(s, 39, 40, 42, 43, false);
    lemma_atom_literal(s, 43);
    lemma_literal_run(s, 44, 45);
    lemma_item(s, 43, 43, 46, 46, false);
    lemma_items_end(s, 46, 46, false);
    lemma_bars_end(s, 0, 46, false);
}

/// The rules that every grammar starts with are read as they were written, and are well formed.
pub proof fn preludes_are_well_formed()
    ensures
        prelude().len() == 9,
        forall|i: int| 0 <= i < 9 ==> clean(#[trigger] prelude()[i]),
        forall|i: int| 0 <= i < 9 ==> alternates_end(seq![' '] + (#[trigger] prelude()[i]).1, 0, false) is Some,
{
    lemma_ws_line();
    lemma_ws_rule();
    lemma_string_line();
    lemma_string_rule();
    lemma_integer_line();
    lemma_integer_rule();
    lemma_number_line();
    lemma_number_rule();
    lemma_boolean_line();
    lemma_boolean_rule();
    lemma_null_line();
    lemma_null_rule();
    lemma_value_line();
    lemma_value_rule();
    lemma_object_line();
    lemma_object_rule();
    lemma_array_line();
    lemma_array_rule();
}

} // verus!
