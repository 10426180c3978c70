//! The swarm client's command language. A line is split into fields at
//! whitespace; the first field, lowercased, names the command and the
//! fields after it are its arguments. Numbers are decimal, as `str::parse`
//! reads them: an optional sign (`+`, or `-` for signed numbers) and at
//! least one digit, within the range of the type.

use vstd::prelude::*;
use vstd::string::*;
use crate::rag::{lowercase, spec_lowercase, strings_view, push_char};

verus! {

/// The characters with the Unicode White_Space property, which
/// `char::is_whitespace` tests for: tab to carriage return, space, next
/// line, no-break space, Ogham space mark, the spaces from en quad to hair
/// space, line and paragraph separators, narrow no-break space, medium
/// mathematical space and ideographic space.
pub open spec fn spec_is_whitespace(c: char) -> bool {
    let u = c as int;
    ||| 0x9 <= u <= 0xD
    ||| u == 0x20
    ||| u == 0x85
    ||| u == 0xA0
    ||| u == 0x1680
    ||| 0x2000 <= u <= 0x200A
    ||| u == 0x2028
    ||| u == 0x2029
    ||| u == 0x202F
    ||| u == 0x205F
    ||| u == 0x3000
}

/// Whether a character is whitespace.
fn is_space(c: char) -> (r: bool)
    ensures
        r == spec_is_whitespace(c),
{
    let u = c as u32;
    (0x9 <= u && u <= 0xD) || u == 0x20 || u == 0x85 || u == 0xA0 || u == 0x1680 || (0x2000 <= u && u
        <= 0x200A) || u == 0x2028 || u == 0x2029 || u == 0x202F || u == 0x205F || u == 0x3000
}

/// The maximal runs of non-whitespace characters of `s`, in order.
pub open spec fn fields(s: Seq<char>) -> Seq<Seq<char>>
    decreases s.len(),
{
    if s.len() == 0 {
        Seq::empty()
    } else {
        let w = fields(s.drop_last());
        let c = s.last();
        if spec_is_whitespace(c) {
            w
        } else if s.len() >= 2 && !spec_is_whitespace(s[s.len() - 2]) {
            w.update(w.len() - 1, w.last().push(c))
        } else {
            w.push(seq![c])
        }
    }
}

/// The value of a sequence of decimal digits.
pub open spec fn digits_value(d: Seq<char>) -> nat
    decreases d.len(),
{
    if d.len() == 0 {
        0
    } else {
        digits_value(d.drop_last()) * 10 + ((d.last() as int - '0' as int) as nat)
    }
}

/// At least one character, all of them decimal digits.
pub open spec fn all_digits(d: Seq<char>) -> bool {
    d.len() > 0 && forall|i: int| 0 <= i < d.len() ==> '0' <= #[trigger] d[i] <= '9'
}

/// The `usize` that `s` spells: an optional `+` and digits, in range.
pub open spec fn usize_of(s: Seq<char>) -> Option<usize> {
    let d = if s.len() > 0 && s[0] == '+' {
        s.drop_first()
    } else {
        s
    };
    if all_digits(d) && digits_value(d) <= usize::MAX {
        Some(digits_value(d) as usize)
    } else {
        None
    }
}

/// The `i64` that `s` spells: an optional `+` or `-` and digits, in range.
pub open spec fn i64_of(s: Seq<char>) -> Option<i64> {
    let neg = s.len() > 0 && s[0] == '-';
    let d = if s.len() > 0 && (s[0] == '+' || s[0] == '-') {
        s.drop_first()
    } else {
        s
    };
    if !all_digits(d) {
        None
    } else if neg {
        if digits_value(d) <= 0x8000_0000_0000_0000 {
            Some((-digits_value(d)) as i64)
        } else {
            None
        }
    } else if digits_value(d) <= i64::MAX {
        Some(digits_value(d) as i64)
    } else {
        None
    }
}

/// A command of the swarm client.
pub enum SwarmCommand {
    /// A line without fields.
    Blank,
    Exit,
    Help,
    Status,
    Swarm,
    Query,
    Bench,
    /// `select <strategy>`; `None` when the strategy is missing.
    Select(Option<String>),
    /// `set_pieces <N>`; `None` when N is missing, `Some(None)` when it is
    /// not a number.
    SetPieces(Option<Option<usize>>),
    /// `set_seeders <N>`, as `SetPieces`.
    SetSeeders(Option<Option<usize>>),
    /// `set_priority <idx> <prio>`; `None` when an argument is missing,
    /// otherwise each argument's number, `None` where it is not one.
    SetPriority(Option<(Option<usize>, Option<i64>)>),
    /// `set_client <idx> <0|1>`, as `SetPriority`.
    SetClient(Option<(Option<usize>, Option<i64>)>),
    /// Any other command name, lowercased.
    Unknown(String),
}

/// Model of a command: strings by their characters.
pub enum CommandModel {
    Blank,
    Exit,
    Help,
    Status,
    Swarm,
    Query,
    Bench,
    Select(Option<Seq<char>>),
    SetPieces(Option<Option<usize>>),
    SetSeeders(Option<Option<usize>>),
    SetPriority(Option<(Option<usize>, Option<i64>)>),
    SetClient(Option<(Option<usize>, Option<i64>)>),
    Unknown(Seq<char>),
}

impl View for SwarmCommand {
    type V = CommandModel;

    open spec fn view(&self) -> CommandModel {
        match self {
            SwarmCommand::Blank => CommandModel::Blank,
            SwarmCommand::Exit => CommandModel::Exit,
            SwarmCommand::Help => CommandModel::Help,
            SwarmCommand::Status => CommandModel::Status,
            SwarmCommand::Swarm => CommandModel::Swarm,
            SwarmCommand::Query => CommandModel::Query,
            SwarmCommand::Bench => CommandModel::Bench,
            SwarmCommand::Select(s) => CommandModel::Select(
                match s {
                    Some(t) => Some(t@),
                    None => None,
                },
            ),
            SwarmCommand::SetPieces(n) => CommandModel::SetPieces(*n),
            SwarmCommand::SetSeeders(n) => CommandModel::SetSeeders(*n),
            SwarmCommand::SetPriority(a) => CommandModel::SetPriority(*a),
            SwarmCommand::SetClient(a) => CommandModel::SetClient(*a),
            SwarmCommand::Unknown(s) => CommandModel::Unknown(s@),
        }
    }
}

/// The number argument of a command, when there is one.
pub open spec fn count_arg(f: Seq<Seq<char>>) -> Option<Option<usize>> {
    if f.len() < 2 {
        None
    } else {
        Some(usize_of(f[1]))
    }
}

/// The index and value arguments at fields 1 and 2, when both are there.
pub open spec fn pair_arg(f: Seq<Seq<char>>) -> Option<(Option<usize>, Option<i64>)> {
    if f.len() < 3 {
        None
    } else {
        Some((usize_of(f[1]), i64_of(f[2])))
    }
}

/// The command that the fields of a line give.
pub open spec fn command_of(f: Seq<Seq<char>>) -> CommandModel {
    if f.len() == 0 {
        CommandModel::Blank
    } else {
        let cmd = spec_lowercase(f[0]);
        if cmd == "exit"@ || cmd == "quit"@ {
            CommandModel::Exit
        } else if cmd == "help"@ {
            CommandModel::Help
        } else if cmd == "status"@ {
            CommandModel::Status
        } else if cmd == "swarm"@ {
            CommandModel::Swarm
        } else if cmd == "query"@ {
            CommandModel::Query
        } else if cmd == "bench"@ {
            CommandModel::Bench
        } else if cmd == "select"@ {
            CommandModel::Select(
                if f.len() < 2 {
                    None
                } else {
                    Some(f[1])
                },
            )
        } else if cmd == "set_pieces"@ {
            CommandModel::SetPieces(count_arg(f))
        } else if cmd == "set_seeders"@ {
            CommandModel::SetSeeders(count_arg(f))
        } else if cmd == "set_priority"@ {
            CommandModel::SetPriority(pair_arg(f))
        } else if cmd == "set_client"@ {
            CommandModel::SetClient(pair_arg(f))
        } else {
            CommandModel::Unknown(cmd)
        }
    }
}

proof fn lemma_fields_nonempty(s: Seq<char>)
    requires
        s.len() > 0,
        !spec_is_whitespace(s.last()),
    ensures
        fields(s).len() > 0,
    decreases s.len(),
{
    if s.len() >= 2 && !spec_is_whitespace(s[s.len() - 2]) {
        lemma_fields_nonempty(s.drop_last());
        assert(s.drop_last().last() == s[s.len() - 2]);
    }
}

/// Split a line into its fields.
pub fn split_fields(line: &str) -> (r: Vec<String>)
    ensures
        strings_view(r@) == fields(line@),
{
    let ghost s = line@;
    let len = line.unicode_len();
    let mut out: Vec<String> = Vec::new();
    let mut cur = String::new();
    let mut in_field = false;
    let mut i: usize = 0;
    while i < len
        invariant
            i <= len,
            len == s.len(),
            s == line@,
            in_field == (i > 0 && !spec_is_whitespace(s[i - 1])),
            !in_field ==> strings_view(out@) == fields(s.take(i as int)),
            in_field ==> strings_view(out@).push(cur@) == fields(s.take(i as int)),
        decreases len - i,
    {
        let c = line.get_char(i);
        let ghost t = s.take(i as int + 1);
        assert(t.drop_last() =~= s.take(i as int));
        assert(t.last() == c);
        if !is_space(c) {
            if in_field {
                proof {
                    assert(t[t.len() - 2] == s[i - 1]);
                    lemma_fields_nonempty(s.take(i as int));
                }
                push_char(&mut cur, c);
                assert(strings_view(out@).push(cur@) =~= fields(t));
            } else {
                cur = String::new();
                push_char(&mut cur, c);
                assert(cur@ =~= seq![c]);
                assert(strings_view(out@).push(cur@) =~= fields(t));
            }
            in_field = true;
        } else {
            if in_field {
                let ghost before = strings_view(out@);
                let done = cur;
                cur = String::new();
                out.push(done);
                assert(strings_view(out@) =~= before.push(done@));
            }
            in_field = false;
        }
        i += 1;
    }
    if in_field {
        let ghost before = strings_view(out@);
        out.push(cur);
        assert(strings_view(out@) =~= before.push(cur@));
    }
    assert(s.take(len as int) =~= s);
    out
}

proof fn lemma_digits_prefix(d: Seq<char>, k: int)
    requires
        0 <= k <= d.len(),
    ensures
        digits_value(d.take(k)) <= digits_value(d),
    decreases d.len(),
{
    if k == d.len() {
        assert(d.take(k) =~= d);
    } else {
        lemma_digits_prefix(d.drop_last(), k);
        assert(d.drop_last().take(k) =~= d.take(k));
    }
}

/// The value of the digits of `s` from position `start` on, when they are
/// all digits and the value is at most `bound`.
fn digits_from(s: &str, start: usize, bound: u128) -> (r: Option<u128>)
    requires
        start <= s@.len(),
        bound <= 0x1_0000_0000_0000_0000,
    ensures
        r matches Some(v) ==> all_digits(s@.skip(start as int)) && v == digits_value(s@.skip(start as int))
            && v <= bound,
        r is None ==> !(all_digits(s@.skip(start as int)) && digits_value(s@.skip(start as int)) <= bound),
{
    let ghost d = s@.skip(start as int);
    let len = s.unicode_len();
    if start >= len {
        return None;
    }
    let mut acc: u128 = 0;
    let mut i: usize = start;
    while i < len
        invariant
            start <= i <= len,
            len == s@.len(),
            d == s@.skip(start as int),
            forall|j: int| 0 <= j < i - start ==> '0' <= #[trigger] d[j] <= '9',
            acc == digits_value(d.take(i - start)),
            acc <= bound,
            bound <= 0x1_0000_0000_0000_0000,
        decreases len - i,
    {
        let c = s.get_char(i);
        assert(d[i - start] == c);
        let ghost t = d.take(i - start + 1);
        assert(t.drop_last() =~= d.take(i - start));
        assert(t.last() == c);
        if !('0' <= c && c <= '9') {
            return None;
        }
        let digit = (c as u32 - '0' as u32) as u128;
        if acc * 10 + digit > bound {
            proof {
                assert(digits_value(t) > bound);
                lemma_digits_prefix(d, i - start + 1);
            }
            return None;
        }
        acc = acc * 10 + digit;
        i += 1;
    }
    assert(d.take(len - start) =~= d);
    Some(acc)
}

/// Read a `usize` as `str::parse` does: an optional `+` and digits.
pub fn parse_usize(s: &str) -> (r: Option<usize>)
    ensures
        r == usize_of(s@),
{
    let plus = s.unicode_len() > 0 && s.get_char(0) == '+';
    let start: usize = if plus {
        1
    } else {
        0
    };
    assert(s@.skip(0) =~= s@);
    assert(s@.skip(1) =~= s@.drop_first());
    match digits_from(s, start, usize::MAX as u128) {
        Some(v) => Some(v as usize),
        None => None,
    }
}

/// Read an `i64` as `str::parse` does: an optional `+` or `-` and digits.
pub fn parse_i64(s: &str) -> (r: Option<i64>)
    ensures
        r == i64_of(s@),
{
    let len = s.unicode_len();
    let first = if len > 0 {
        s.get_char(0)
    } else {
        ' '
    };
    let neg = len > 0 && first == '-';
    let start: usize = if len > 0 && (first == '+' || first == '-') {
        1
    } else {
        0
    };
    assert(s@.skip(0) =~= s@);
    assert(s@.skip(1) =~= s@.drop_first());
    let bound: u128 = if neg {
        0x8000_0000_0000_0000
    } else {
        0x7FFF_FFFF_FFFF_FFFF
    };
    match digits_from(s, start, bound) {
        Some(v) => {
            if neg {
                if v == 0x8000_0000_0000_0000 {
                    Some(i64::MIN)
                } else {
                    Some(-(v as i64))
                }
            } else {
                Some(v as i64)
            }
        },
        None => None,
    }
}

/// The number argument of a command, read from the second field.
fn count_field(f: &Vec<String>) -> (r: Option<Option<usize>>)
    ensures
        r == count_arg(strings_view(f@)),
{
    if f.len() < 2 {
        None
    } else {
        assert(strings_view(f@)[1] == f@[1]@);
        Some(parse_usize(f[1].as_str()))
    }
}

/// The index and value arguments of a command, read from the second and
/// third fields.
fn pair_fields(f: &Vec<String>) -> (r: Option<(Option<usize>, Option<i64>)>)
    ensures
        r == pair_arg(strings_view(f@)),
{
    if f.len() < 3 {
        None
    } else {
        assert(strings_view(f@)[1] == f@[1]@);
        assert(strings_view(f@)[2] == f@[2]@);
        Some((parse_usize(f[1].as_str()), parse_i64(f[2].as_str())))
    }
}

/// Read a command line of the swarm client.
pub fn parse_command(line: &str) -> (r: SwarmCommand)
    ensures
        r@ == command_of(fields(line@)),
{
    let f = split_fields(line);
    let ghost fv = strings_view(f@);
    if f.len() == 0 {
        return SwarmCommand::Blank;
    }
    assert(fv[0] == f@[0]@);
    let cmd = lowercase(f[0].as_str());
    if cmd == String::from_str("exit") || cmd == String::from_str("quit") {
        SwarmCommand::Exit
    } else if cmd == String::from_str("help") {
        SwarmCommand::Help
    } else if cmd == String::from_str("status") {
        SwarmCommand::Status
    } else if cmd == String::from_str("swarm") {
        SwarmCommand::Swarm
    } else if cmd == String::from_str("query") {
        SwarmCommand::Query
    } else if cmd == String::from_str("bench") {
        SwarmCommand::Bench
    } else if cmd == String::from_str("select") {
        if f.len() < 2 {
            SwarmCommand::Select(None)
        } else {
            assert(fv[1] == f@[1]@);
            SwarmCommand::Select(Some(f[1].clone()))
        }
    } else if cmd == String::from_str("set_pieces") {
        SwarmCommand::SetPieces(count_field(&f))
    } else if cmd == String::from_str("set_seeders") {
        SwarmCommand::SetSeeders(count_field(&f))
    } else if cmd == String::from_str("set_priority") {
        SwarmCommand::SetPriority(pair_fields(&f))
    } else if cmd == String::from_str("set_client") {
        SwarmCommand::SetClient(pair_fields(&f))
    } else {
        SwarmCommand::Unknown(cmd)
    }
}

/// A run of characters that are not whitespace is one field.
pub proof fn lemma_fields_of_run(s: Seq<char>)
    requires
        s.len() > 0,
        forall|i: int| 0 <= i < s.len() ==> !spec_is_whitespace(#[trigger] s[i]),
    ensures
        fields(s) == seq![s],
    decreases s.len(),
{
    if s.len() == 1 {
        assert(fields(s.drop_last()) =~= Seq::<Seq<char>>::empty());
        assert(seq![s.last()] =~= s);
        assert(fields(s) =~= seq![s]);
    } else {
        let t = s.drop_last();
        assert forall|i: int| 0 <= i < t.len() implies !spec_is_whitespace(#[trigger] t[i]) by {
            assert(t[i] == s[i]);
        }
        lemma_fields_of_run(t);
        assert(!spec_is_whitespace(s[s.len() - 2]));
        assert(t.push(s.last()) =~= s);
        assert(fields(s) =~= seq![s]);
    }
}

/// Whitespace separates fields: the fields of `a`, a whitespace character
/// and `b` are the fields of `a` followed by those of `b`.
pub proof fn lemma_fields_split(a: Seq<char>, c: char, b: Seq<char>)
    requires
        spec_is_whitespace(c),
    ensures
        fields(a + seq![c] + b) == fields(a) + fields(b),
    decreases b.len(),
{
    let ac = a + seq![c];
    if b.len() == 0 {
        assert(ac + b =~= ac);
        assert(ac.drop_last() =~= a);
        assert(fields(a) + fields(b) =~= fields(a));
    } else {
        let bp = b.drop_last();
        let d = b.last();
        lemma_fields_split(a, c, bp);
        let s = ac + b;
        assert(s.drop_last() =~= ac + bp);
        assert(s.last() == d);
        let wa = fields(a);
        let wp = fields(bp);
        assert(fields(ac + bp) == wa + wp);
        if spec_is_whitespace(d) {
        } else if b.len() >= 2 && !spec_is_whitespace(b[b.len() - 2]) {
            assert(s[s.len() - 2] == b[b.len() - 2]);
            lemma_fields_nonempty(bp);
            assert(bp.last() == b[b.len() - 2]);
            let w = wa + wp;
            assert(w.last() == wp.last());
            assert(w.update(w.len() - 1, w.last().push(d)) =~= wa + wp.update(wp.len() - 1, wp.last().push(d)));
        } else {
            if b.len() >= 2 {
                assert(s[s.len() - 2] == b[b.len() - 2]);
            } else {
                assert(s[s.len() - 2] == c);
            }
            assert((wa + wp).push(seq![d]) =~= wa + wp.push(seq![d]));
        }
    }
}

/// Decimal digits read positionally: the value of `a` followed by `b` is
/// the value of `a` shifted by the digits of `b`, plus the value of `b`.
pub proof fn lemma_digits_concat(a: Seq<char>, b: Seq<char>)
    ensures
        digits_value(a + b) == digits_value(a) * vstd::arithmetic::power::pow(10, b.len()) + digits_value(b),
    decreases b.len(),
{
    if b.len() == 0 {
        assert(a + b =~= a);
        vstd::arithmetic::power::lemma_pow0(10);
    } else {
        let bp = b.drop_last();
        lemma_digits_concat(a, bp);
        assert((a + b).drop_last() =~= a + bp);
        assert((a + b).last() == b.last());
        vstd::arithmetic::power::lemma_pow_adds(10, bp.len(), 1);
        vstd::arithmetic::power::lemma_pow1(10);
        let p = vstd::arithmetic::power::pow(10, bp.len());
        let da = digits_value(a) as int;
        let dp = digits_value(bp) as int;
        let e = (b.last() as int - '0' as int) as nat as int;
        assert((da * p + dp) * 10 + e == da * (p * 10) + (dp * 10 + e)) by (nonlinear_arith);
    }
}

/// A number spelled with digits only reads as its value, with or without
/// a leading `+`, when it fits; a leading `-` negates it for `i64`.
pub proof fn lemma_number_signs(d: Seq<char>)
    requires
        all_digits(d),
    ensures
        usize_of(d) == usize_of(seq!['+'] + d),
        digits_value(d) <= usize::MAX ==> usize_of(d) == Some(digits_value(d) as usize),
        digits_value(d) > usize::MAX ==> usize_of(d) is None,
        i64_of(d) == i64_of(seq!['+'] + d),
        digits_value(d) <= i64::MAX ==> i64_of(d) == Some(digits_value(d) as i64),
        digits_value(d) <= i64::MAX + 1 ==> i64_of(seq!['-'] + d) == Some((-digits_value(d)) as i64),
        digits_value(d) > i64::MAX + 1 ==> i64_of(seq!['-'] + d) is None,
{
    assert((seq!['+'] + d).drop_first() =~= d);
    assert((seq!['-'] + d).drop_first() =~= d);
    assert(d[0] != '+' && d[0] != '-');
}

} // verus!
