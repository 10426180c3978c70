//! Registry of the K primitives and how far each one is implemented.

use vstd::prelude::*;

verus! {

/// How far a primitive is implemented.
#[derive(Debug, Clone, Copy, PartialEq, Eq)]
pub enum PrimitiveStatus {
    Implemented,
    Partial,
    Pending,
    OutOfCore,
}

/// A primitive: its symbol, valence, the name of the routine behind it and
/// its status.
#[derive(Debug, Clone, Copy)]
pub struct Primitive {
    pub name: &'static str,
    pub valence: u8,
    pub c_function: &'static str,
    pub status: PrimitiveStatus,
}

/// Valence and status of the first half of the registry.
pub open spec fn table_front() -> Seq<(u8, PrimitiveStatus)> {
    seq![
        (0u8, PrimitiveStatus::Implemented),
        (0u8, PrimitiveStatus::Implemented),
        (0u8, PrimitiveStatus::Implemented),
        (0u8, PrimitiveStatus::Pending),
        (0u8, PrimitiveStatus::Pending),
        (0u8, PrimitiveStatus::Pending),
        (1u8, PrimitiveStatus::Implemented),
        (2u8, PrimitiveStatus::Implemented),
        (1u8, PrimitiveStatus::Implemented),
        (2u8, PrimitiveStatus::Implemented),
        (1u8, PrimitiveStatus::Implemented),
        (2u8, PrimitiveStatus::Implemented),
        (1u8, PrimitiveStatus::Implemented),
        (2u8, PrimitiveStatus::Implemented),
        (1u8, PrimitiveStatus::Implemented),
        (2u8, PrimitiveStatus::Implemented),
        (1u8, PrimitiveStatus::Partial),
        (2u8, PrimitiveStatus::Implemented),
        (1u8, PrimitiveStatus::Pending),
        (2u8, PrimitiveStatus::Implemented),
        (1u8, PrimitiveStatus::Pending),
        (2u8, PrimitiveStatus::Partial),
        (1u8, PrimitiveStatus::Implemented),
        (2u8, PrimitiveStatus::Implemented),
        (1u8, PrimitiveStatus::Implemented),
        (2u8, PrimitiveStatus::Implemented),
        (1u8, PrimitiveStatus::Pending),
        (2u8, PrimitiveStatus::Implemented),
        (1u8, PrimitiveStatus::Pending),
        (2u8, PrimitiveStatus::Implemented),
        (1u8, PrimitiveStatus::Pending),
        (2u8, PrimitiveStatus::Pending),
        (1u8, PrimitiveStatus::Implemented),
        (2u8, PrimitiveStatus::Pending),
    ]
}

/// Valence and status of the second half of the registry.
pub open spec fn table_back() -> Seq<(u8, PrimitiveStatus)> {
    seq![
        (1u8, PrimitiveStatus::Implemented),
        (2u8, PrimitiveStatus::Pending),
        (1u8, PrimitiveStatus::Pending),
        (2u8, PrimitiveStatus::Pending),
        (1u8, PrimitiveStatus::Pending),
        (2u8, PrimitiveStatus::Implemented),
        (1u8, PrimitiveStatus::Pending),
        (2u8, PrimitiveStatus::Pending),
        (1u8, PrimitiveStatus::Pending),
        (2u8, PrimitiveStatus::Pending),
        (1u8, PrimitiveStatus::Pending),
        (2u8, PrimitiveStatus::Pending),
        (2u8, PrimitiveStatus::Implemented),
        (2u8, PrimitiveStatus::Partial),
        (2u8, PrimitiveStatus::Partial),
        (1u8, PrimitiveStatus::Implemented),
        (1u8, PrimitiveStatus::Implemented),
        (1u8, PrimitiveStatus::Implemented),
        (1u8, PrimitiveStatus::Implemented),
        (1u8, PrimitiveStatus::Pending),
        (1u8, PrimitiveStatus::OutOfCore),
        (2u8, PrimitiveStatus::OutOfCore),
        (1u8, PrimitiveStatus::OutOfCore),
        (2u8, PrimitiveStatus::OutOfCore),
        (1u8, PrimitiveStatus::Implemented),
        (2u8, PrimitiveStatus::Implemented),
        (1u8, PrimitiveStatus::OutOfCore),
        (2u8, PrimitiveStatus::OutOfCore),
        (1u8, PrimitiveStatus::OutOfCore),
        (2u8, PrimitiveStatus::OutOfCore),
        (1u8, PrimitiveStatus::OutOfCore),
        (2u8, PrimitiveStatus::OutOfCore),
        (1u8, PrimitiveStatus::OutOfCore),
        (2u8, PrimitiveStatus::OutOfCore),
    ]
}

/// Valence and status of every primitive of the registry, in order.
pub open spec fn primitive_table() -> Seq<(u8, PrimitiveStatus)> {
    table_front() + table_back()
}

/// Symbol and routine name of the first half of the registry.
pub open spec fn names_front() -> Seq<(Seq<char>, Seq<char>)> {
    seq![
        ("/"@, "over"@),
        ("\\"@, "scan"@),
        ("'"@, "each"@),
        ("/:"@, "eachright"@),
        ("\\:"@, "eachleft"@),
        ("':"@, "eachpair"@),
        ("+"@, "flip"@),
        ("+"@, "plus"@),
        ("-"@, "negate"@),
        ("-"@, "minus"@),
        ("*"@, "first"@),
        ("*"@, "times"@),
        ("%"@, "reciprocal"@),
        ("%"@, "divide"@),
        ("|"@, "reverse"@),
        ("|"@, "max_or"@),
        ("&"@, "where"@),
        ("&"@, "min_and"@),
        ("^"@, "shape"@),
        ("^"@, "power"@),
        ("!"@, "enumerate"@),
        ("!"@, "rotate_mod"@),
        ("<"@, "grade_up"@),
        ("<"@, "less"@),
        (">"@, "grade_down"@),
        (">"@, "more"@),
        ("="@, "group"@),
        ("="@, "equals"@),
        ("~"@, "not_attribute"@),
        ("~"@, "match"@),
        ("@"@, "atom"@),
        ("@"@, "at"@),
        ("?"@, "range"@),
        ("?"@, "what"@),
    ]
}

/// Symbol and routine name of the second half of the registry.
pub open spec fn names_back() -> Seq<(Seq<char>, Seq<char>)> {
    seq![
        ("_"@, "floor_verb"@),
        ("_"@, "drop_cut"@),
        (","@, "enlist"@),
        (","@, "join"@),
        ("#"@, "count"@),
        ("#"@, "take_reshape"@),
        ("$"@, "format"@),
        ("$"@, "dollar"@),
        ("."@, "dot_monadic"@),
        ("."@, "dot"@),
        (":"@, "colon_monadic"@),
        (":"@, "colon_dyadic"@),
        ("_dot"@, "_dot"@),
        ("_mul"@, "_mul"@),
        ("_pmul"@, "_pmul"@),
        ("_sqrt"@, "_sqrt"@),
        ("_exp"@, "_exp"@),
        ("_floor"@, "_floor"@),
        ("_ceil"@, "_ceil"@),
        ("_abs"@, "_abs"@),
        ("0:"@, "_0m"@),
        ("0:"@, "_0d"@),
        ("1:"@, "_1m"@),
        ("1:"@, "_1d"@),
        ("2:"@, "_2m"@),
        ("2:"@, "_2d"@),
        ("3:"@, "_3m"@),
        ("3:"@, "_3d"@),
        ("4:"@, "_4m"@),
        ("4:"@, "_4d"@),
        ("5:"@, "_5m"@),
        ("5:"@, "_5d"@),
        ("6:"@, "_6m"@),
        ("6:"@, "_6d"@),
    ]
}

/// Symbol and routine name of every primitive of the registry, in order.
pub open spec fn primitive_names() -> Seq<(Seq<char>, Seq<char>)> {
    names_front() + names_back()
}

/// The valence and status of a registry entry.
pub open spec fn entry_of(p: Primitive) -> (u8, PrimitiveStatus) {
    (p.valence, p.status)
}

fn entry(name: &'static str, valence: u8, c_function: &'static str, status: PrimitiveStatus) -> (p: Primitive)
    ensures
        p.name == name,
        p.valence == valence,
        p.c_function == c_function,
        p.status == status,
{
    Primitive { name, valence, c_function, status }
}

/// The first half of the registry.
fn registry_front() -> (r: Vec<Primitive>)
    ensures
        r@.map_values(|p: Primitive| entry_of(p)) == table_front(),
        r@.map_values(|p: Primitive| (p.name@, p.c_function@)) == names_front(),
{
    let mut t: Vec<Primitive> = Vec::new();
    t.push(entry("/", 0, "over", PrimitiveStatus::Implemented));
    t.push(entry("\\", 0, "scan", PrimitiveStatus::Implemented));
    t.push(entry("'", 0, "each", PrimitiveStatus::Implemented));
    t.push(entry("/:", 0, "eachright", PrimitiveStatus::Pending));
    t.push(entry("\\:", 0, "eachleft", PrimitiveStatus::Pending));
    t.push(entry("':", 0, "eachpair", PrimitiveStatus::Pending));
    t.push(entry("+", 1, "flip", PrimitiveStatus::Implemented));
    t.push(entry("+", 2, "plus", PrimitiveStatus::Implemented));
    t.push(entry("-", 1, "negate", PrimitiveStatus::Implemented));
    t.push(entry("-", 2, "minus", PrimitiveStatus::Implemented));
    t.push(entry("*", 1, "first", PrimitiveStatus::Implemented));
    t.push(entry("*", 2, "times", PrimitiveStatus::Implemented));
    t.push(entry("%", 1, "reciprocal", PrimitiveStatus::Implemented));
    t.push(entry("%", 2, "divide", PrimitiveStatus::Implemented));
    t.push(entry("|", 1, "reverse", PrimitiveStatus::Implemented));
    t.push(entry("|", 2, "max_or", PrimitiveStatus::Implemented));
    t.push(entry("&", 1, "where", PrimitiveStatus::Partial));
    t.push(entry("&", 2, "min_and", PrimitiveStatus::Implemented));
    t.push(entry("^", 1, "shape", PrimitiveStatus::Pending));
    t.push(entry("^", 2, "power", PrimitiveStatus::Implemented));
    t.push(entry("!", 1, "enumerate", PrimitiveStatus::Pending));
    t.push(entry("!", 2, "rotate_mod", PrimitiveStatus::Partial));
    t.push(entry("<", 1, "grade_up", PrimitiveStatus::Implemented));
    t.push(entry("<", 2, "less", PrimitiveStatus::Implemented));
    t.push(entry(">", 1, "grade_down", PrimitiveStatus::Implemented));
    t.push(entry(">", 2, "more", PrimitiveStatus::Implemented));
    t.push(entry("=", 1, "group", PrimitiveStatus::Pending));
    t.push(entry("=", 2, "equals", PrimitiveStatus::Implemented));
    t.push(entry("~", 1, "not_attribute", PrimitiveStatus::Pending));
    t.push(entry("~", 2, "match", PrimitiveStatus::Implemented));
    t.push(entry("@", 1, "atom", PrimitiveStatus::Pending));
    t.push(entry("@", 2, "at", PrimitiveStatus::Pending));
    t.push(entry("?", 1, "range", PrimitiveStatus::Implemented));
    t.push(entry("?", 2, "what", PrimitiveStatus::Pending));
    assert(t@.map_values(|p: Primitive| entry_of(p)) =~= table_front());
    assert(t@.map_values(|p: Primitive| (p.name@, p.c_function@)) =~= names_front());
    t
}

/// The second half of the registry.
fn registry_back() -> (r: Vec<Primitive>)
    ensures
        r@.map_values(|p: Primitive| entry_of(p)) == table_back(),
        r@.map_values(|p: Primitive| (p.name@, p.c_function@)) == names_back(),
{
    let mut t: Vec<Primitive> = Vec::new();
    t.push(entry("_", 1, "floor_verb", PrimitiveStatus::Implemented));
    t.push(entry("_", 2, "drop_cut", PrimitiveStatus::Pending));
    t.push(entry(",", 1, "enlist", PrimitiveStatus::Pending));
    t.push(entry(",", 2, "join", PrimitiveStatus::Pending));
    t.push(entry("#", 1, "count", PrimitiveStatus::Pending));
    t.push(entry("#", 2, "take_reshape", PrimitiveStatus::Implemented));
    t.push(entry("$", 1, "format", PrimitiveStatus::Pending));
    t.push(entry("$", 2, "dollar", PrimitiveStatus::Pending));
    t.push(entry(".", 1, "dot_monadic", PrimitiveStatus::Pending));
    t.push(entry(".", 2, "dot", PrimitiveStatus::Pending));
    t.push(entry(":", 1, "colon_monadic", PrimitiveStatus::Pending));
    t.push(entry(":", 2, "colon_dyadic", PrimitiveStatus::Pending));
    t.push(entry("_dot", 2, "_dot", PrimitiveStatus::Implemented));
    t.push(entry("_mul", 2, "_mul", PrimitiveStatus::Partial));
    t.push(entry("_pmul", 2, "_pmul", PrimitiveStatus::Partial));
    t.push(entry("_sqrt", 1, "_sqrt", PrimitiveStatus::Implemented));
    t.push(entry("_exp", 1, "_exp", PrimitiveStatus::Implemented));
    t.push(entry("_floor", 1, "_floor", PrimitiveStatus::Implemented));
    t.push(entry("_ceil", 1, "_ceil", PrimitiveStatus::Implemented));
    t.push(entry("_abs", 1, "_abs", PrimitiveStatus::Pending));
    t.push(entry("0:", 1, "_0m", PrimitiveStatus::OutOfCore));
    t.push(entry("0:", 2, "_0d", PrimitiveStatus::OutOfCore));
    t.push(entry("1:", 1, "_1m", PrimitiveStatus::OutOfCore));
    t.push(entry("1:", 2, "_1d", PrimitiveStatus::OutOfCore));
    t.push(entry("2:", 1, "_2m", PrimitiveStatus::Implemented));
    t.push(entry("2:", 2, "_2d", PrimitiveStatus::Implemented));
    t.push(entry("3:", 1, "_3m", PrimitiveStatus::OutOfCore));
    t.push(entry("3:", 2, "_3d", PrimitiveStatus::OutOfCore));
    t.push(entry("4:", 1, "_4m", PrimitiveStatus::OutOfCore));
    t.push(entry("4:", 2, "_4d", PrimitiveStatus::OutOfCore));
    t.push(entry("5:", 1, "_5m", PrimitiveStatus::OutOfCore));
    t.push(entry("5:", 2, "_5d", PrimitiveStatus::OutOfCore));
    t.push(entry("6:", 1, "_6m", PrimitiveStatus::OutOfCore));
    t.push(entry("6:", 2, "_6d", PrimitiveStatus::OutOfCore));
    assert(t@.map_values(|p: Primitive| entry_of(p)) =~= table_back());
    assert(t@.map_values(|p: Primitive| (p.name@, p.c_function@)) =~= names_back());
    t
}

/// The registry of primitives.
pub fn primitives() -> (r: Vec<Primitive>)
    ensures
        r@.map_values(|p: Primitive| entry_of(p)) == primitive_table(),
        r@.map_values(|p: Primitive| (p.name@, p.c_function@)) == primitive_names(),
{
    let mut t = registry_front();
    let mut rest = registry_back();
    let ghost a = t@;
    let ghost b = rest@;
    t.append(&mut rest);
    assert(t@ =~= a + b);
    assert(t@.map_values(|p: Primitive| entry_of(p)) =~= a.map_values(|p: Primitive| entry_of(p)) + b.map_values(
        |p: Primitive| entry_of(p),
    ));
    assert(t@.map_values(|p: Primitive| (p.name@, p.c_function@)) =~= a.map_values(
        |p: Primitive| (p.name@, p.c_function@),
    ) + b.map_values(|p: Primitive| (p.name@, p.c_function@)));
    t
}

/// The number of entries of `t` that are implemented.
pub open spec fn count_implemented(t: Seq<(u8, PrimitiveStatus)>) -> nat
    decreases t.len(),
{
    if t.len() == 0 {
        0
    } else {
        count_implemented(t.drop_last()) + if t.last().1 == PrimitiveStatus::Implemented {
            1nat
        } else {
            0nat
        }
    }
}

proof fn lemma_count_concat(a: Seq<(u8, PrimitiveStatus)>, b: Seq<(u8, PrimitiveStatus)>)
    ensures
        count_implemented(a + b) == count_implemented(a) + count_implemented(b),
    decreases b.len(),
{
    if b.len() == 0 {
        assert(a + b =~= a);
    } else {
        lemma_count_concat(a, b.drop_last());
        assert((a + b).drop_last() =~= a + b.drop_last());
        assert((a + b).last() == b.last());
    }
}

proof fn lemma_front_count()
    ensures
        count_implemented(table_front()) == 22,
{
    let t = table_front();
    assert(count_implemented(t.take(0)) == 0);
    assert(t.take(1).drop_last() =~= t.take(0));
    assert(count_implemented(t.take(1)) == 1);
    assert(t.take(2).drop_last() =~= t.take(1));
    assert(count_implemented(t.take(2)) == 2);
    assert(t.take(3).drop_last() =~= t.take(2));
    assert(count_implemented(t.take(3)) == 3);
    assert(t.take(4).drop_last() =~= t.take(3));
    assert(count_implemented(t.take(4)) == 3);
    assert(t.take(5).drop_last() =~= t.take(4));
    assert(count_implemented(t.take(5)) == 3);
    assert(t.take(6).drop_last() =~= t.take(5));
    assert(count_implemented(t.take(6)) == 3);
    assert(t.take(7).drop_last() =~= t.take(6));
    assert(count_implemented(t.take(7)) == 4);
    assert(t.take(8).drop_last() =~= t.take(7));
    assert(count_implemented(t.take(8)) == 5);
    assert(t.take(9).drop_last() =~= t.take(8));
    assert(count_implemented(t.take(9)) == 6);
    assert(t.take(10).drop_last() =~= t.take(9));
    assert(count_implemented(t.take(10)) == 7);
    assert(t.take(11).drop_last() =~= t.take(10));
    assert(count_implemented(t.take(11)) == 8);
    assert(t.take(12).drop_last() =~= t.take(11));
    assert(count_implemented(t.take(12)) == 9);
    assert(t.take(13).drop_last() =~= t.take(12));
    assert(count_implemented(t.take(13)) == 10);
    assert(t.take(14).drop_last() =~= t.take(13));
    assert(count_implemented(t.take(14)) == 11);
    assert(t.take(15).drop_last() =~= t.take(14));
    assert(count_implemented(t.take(15)) == 12);
    assert(t.take(16).drop_last() =~= t.take(15));
    assert(count_implemented(t.take(16)) == 13);
    assert(t.take(17).drop_last() =~= t.take(16));
    assert(count_implemented(t.take(17)) == 13);
    assert(t.take(18).drop_last() =~= t.take(17));
    assert(count_implemented(t.take(18)) == 14);
    assert(t.take(19).drop_last() =~= t.take(18));
    assert(count_implemented(t.take(19)) == 14);
    assert(t.take(20).drop_last() =~= t.take(19));
    assert(count_implemented(t.take(20)) == 15);
    assert(t.take(21).drop_last() =~= t.take(20));
    assert(count_implemented(t.take(21)) == 15);
    assert(t.take(22).drop_last() =~= t.take(21));
    assert(count_implemented(t.take(22)) == 15);
    assert(t.take(23).drop_last() =~= t.take(22));
    assert(count_implemented(t.take(23)) == 16);
    assert(t.take(24).drop_last() =~= t.take(23));
    assert(count_implemented(t.take(24)) == 17);
    assert(t.take(25).drop_last() =~= t.take(24));
    assert(count_implemented(t.take(25)) == 18);
    assert(t.take(26).drop_last() =~= t.take(25));
    assert(count_implemented(t.take(26)) == 19);
    assert(t.take(27).drop_last() =~= t.take(26));
    assert(count_implemented(t.take(27)) == 19);
    assert(t.take(28).drop_last() =~= t.take(27));
    assert(count_implemented(t.take(28)) == 20);
    assert(t.take(29).drop_last() =~= t.take(28));
    assert(count_implemented(t.take(29)) == 20);
    assert(t.take(30).drop_last() =~= t.take(29));
    assert(count_implemented(t.take(30)) == 21);
    assert(t.take(31).drop_last() =~= t.take(30));
    assert(count_implemented(t.take(31)) == 21);
    assert(t.take(32).drop_last() =~= t.take(31));
    assert(count_implemented(t.take(32)) == 21);
    assert(t.take(33).drop_last() =~= t.take(32));
    assert(count_implemented(t.take(33)) == 22);
    assert(t.take(34).drop_last() =~= t.take(33));
    assert(count_implemented(t.take(34)) == 22);
    assert(t.take(34) =~= t);
}

proof fn lemma_back_count()
    ensures
        count_implemented(table_back()) == 9,
{
    let t = table_back();
    assert(count_implemented(t.take(0)) == 0);
    assert(t.take(1).drop_last() =~= t.take(0));
    assert(count_implemented(t.take(1)) == 1);
    assert(t.take(2).drop_last() =~= t.take(1));
    assert(count_implemented(t.take(2)) == 1);
    assert(t.take(3).drop_last() =~= t.take(2));
    assert(count_implemented(t.take(3)) == 1);
    assert(t.take(4).drop_last() =~= t.take(3));
    assert(count_implemented(t.take(4)) == 1);
    assert(t.take(5).drop_last() =~= t.take(4));
    assert(count_implemented(t.take(5)) == 1);
    assert(t.take(6).drop_last() =~= t.take(5));
    assert(count_implemented(t.take(6)) == 2);
    assert(t.take(7).drop_last() =~= t.take(6));
    assert(count_implemented(t.take(7)) == 2);
    assert(t.take(8).drop_last() =~= t.take(7));
    assert(count_implemented(t.take(8)) == 2);
    assert(t.take(9).drop_last() =~= t.take(8));
    assert(count_implemented(t.take(9)) == 2);
    assert(t.take(10).drop_last() =~= t.take(9));
    assert(count_implemented(t.take(10)) == 2);
    assert(t.take(11).drop_last() =~= t.take(10));
    assert(count_implemented(t.take(11)) == 2);
    assert(t.take(12).drop_last() =~= t.take(11));
    assert(count_implemented(t.take(12)) == 2);
    assert(t.take(13).drop_last() =~= t.take(12));
    assert(count_implemented(t.take(13)) == 3);
    assert(t.take(14).drop_last() =~= t.take(13));
    assert(count_implemented(t.take(14)) == 3);
    assert(t.take(15).drop_last() =~= t.take(14));
    assert(count_implemented(t.take(15)) == 3);
    assert(t.take(16).drop_last() =~= t.take(15));
    assert(count_implemented(t.take(16)) == 4);
    assert(t.take(17).drop_last() =~= t.take(16));
    assert(count_implemented(t.take(17)) == 5);
    assert(t.take(18).drop_last() =~= t.take(17));
    assert(count_implemented(t.take(18)) == 6);
    assert(t.take(19).drop_last() =~= t.take(18));
    assert(count_implemented(t.take(19)) == 7);
    assert(t.take(20).drop_last() =~= t.take(19));
    assert(count_implemented(t.take(20)) == 7);
    assert(t.take(21).drop_last() =~= t.take(20));
    assert(count_implemented(t.take(21)) == 7);
    assert(t.take(22).drop_last() =~= t.take(21));
    assert(count_implemented(t.take(22)) == 7);
    assert(t.take(23).drop_last() =~= t.take(22));
    assert(count_implemented(t.take(23)) == 7);
    assert(t.take(24).drop_last() =~= t.take(23));
    assert(count_implemented(t.take(24)) == 7);
    assert(t.take(25).drop_last() =~= t.take(24));
    assert(count_implemented(t.take(25)) == 8);
    assert(t.take(26).drop_last() =~= t.take(25));
    assert(count_implemented(t.take(26)) == 9);
    assert(t.take(27).drop_last() =~= t.take(26));
    assert(count_implemented(t.take(27)) == 9);
    assert(t.take(28).drop_last() =~= t.take(27));
    assert(count_implemented(t.take(28)) == 9);
    assert(t.take(29).drop_last() =~= t.take(28));
    assert(count_implemented(t.take(29)) == 9);
    assert(t.take(30).drop_last() =~= t.take(29));
    assert(count_implemented(t.take(30)) == 9);
    assert(t.take(31).drop_last() =~= t.take(30));
    assert(count_implemented(t.take(31)) == 9);
    assert(t.take(32).drop_last() =~= t.take(31));
    assert(count_implemented(t.take(32)) == 9);
    assert(t.take(33).drop_last() =~= t.take(32));
    assert(count_implemented(t.take(33)) == 9);
    assert(t.take(34).drop_last() =~= t.take(33));
    assert(count_implemented(t.take(34)) == 9);
    assert(t.take(34) =~= t);
}

/// Thirty-one primitives of the registry are implemented.
pub proof fn lemma_implemented_total()
    ensures
        count_implemented(primitive_table()) == 31,
{
    lemma_front_count();
    lemma_back_count();
    lemma_count_concat(table_front(), table_back());
}

/// The number of primitives that are implemented.
pub fn implemented_count() -> (r: usize)
    ensures
        r == count_implemented(primitive_table()),
        r == 31,
{
    proof {
        lemma_implemented_total();
    }
    let t = primitives();
    let ghost tv = t@.map_values(|p: Primitive| entry_of(p));
    let mut count: usize = 0;
    let mut i: usize = 0;
    while i < t.len()
        invariant
            i <= t@.len(),
            tv == t@.map_values(|p: Primitive| entry_of(p)),
            count == count_implemented(tv.take(i as int)),
            count <= i,
        decreases t@.len() - i,
    {
        let ghost s = tv.take(i as int + 1);
        assert(s.drop_last() =~= tv.take(i as int));
        assert(s.last() == entry_of(t@[i as int]));
        match t[i].status {
            PrimitiveStatus::Implemented => {
                count += 1;
            },
            _ => {},
        }
        i += 1;
    }
    assert(tv.take(t@.len() as int) =~= tv);
    count
}

} // verus!
