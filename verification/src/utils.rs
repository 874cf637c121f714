//! Names of log files: `<microseconds>.wal`, the number written in decimal
//! without padding; which files of a directory are logs, and when each was made.

use vstd::prelude::*;
use vstd::string::StringExecFns;

verus! {

/// The character of one decimal digit.
pub open spec fn digit_char(d: nat) -> char {
    if d == 0 {
        '0'
    } else if d == 1 {
        '1'
    } else if d == 2 {
        '2'
    } else if d == 3 {
        '3'
    } else if d == 4 {
        '4'
    } else if d == 5 {
        '5'
    } else if d == 6 {
        '6'
    } else if d == 7 {
        '7'
    } else if d == 8 {
        '8'
    } else {
        '9'
    }
}

/// A number in decimal, without leading zeros.
pub open spec fn decimal_digits(n: nat) -> Seq<char>
    decreases n,
{
    if n < 10 {
        seq![digit_char(n)]
    } else {
        decimal_digits(n / 10).push(digit_char(n % 10))
    }
}

/// The extension that log files carry, without the dot.
pub open spec fn wal_extension() -> Seq<char> {
    seq!['w', 'a', 'l']
}

/// The name of the log file created at `micros` microseconds since the epoch.
pub open spec fn wal_name(micros: nat) -> Seq<char> {
    decimal_digits(micros) + seq!['.'] + wal_extension()
}

/// One decimal digit as text.
fn digit_text(d: u8) -> (text: &'static str)
    requires
        d < 10,
    ensures
        text@ == seq![digit_char(d as nat)],
{
    proof {
        reveal_strlit("0");
        reveal_strlit("1");
        reveal_strlit("2");
        reveal_strlit("3");
        reveal_strlit("4");
        reveal_strlit("5");
        reveal_strlit("6");
        reveal_strlit("7");
        reveal_strlit("8");
        reveal_strlit("9");
    }
    let text = if d == 0 {
        "0"
    } else if d == 1 {
        "1"
    } else if d == 2 {
        "2"
    } else if d == 3 {
        "3"
    } else if d == 4 {
        "4"
    } else if d == 5 {
        "5"
    } else if d == 6 {
        "6"
    } else if d == 7 {
        "7"
    } else if d == 8 {
        "8"
    } else {
        "9"
    };
    assert(text@ =~= seq![digit_char(d as nat)]);
    text
}

/// Appends `n` in decimal to `out`.
fn push_decimal(out: &mut String, n: u128)
    ensures
        final(out)@ == old(out)@ + decimal_digits(n as nat),
    decreases n,
{
    if n >= 10 {
        push_decimal(out, n / 10);
    }
    let digit = (n % 10) as u8;
    out.append(digit_text(digit));
    assert(out@ =~= old(out)@ + decimal_digits(n as nat));
}

/// The name of the log file created at `micros` microseconds since the epoch:
/// the number in decimal, then `.wal`.
pub fn wal_file_name(micros: u128) -> (name: String)
    ensures
        name@ == wal_name(micros as nat),
{
    let mut name = String::new();
    push_decimal(&mut name, micros);
    proof {
        reveal_strlit(".wal");
    }
    name.append(".wal");
    assert(name@ =~= wal_name(micros as nat));
    name
}

/// The characters of a text.
fn chars_of(text: &str) -> (chars: Vec<char>)
    ensures
        chars@ == text@,
{
    let mut chars: Vec<char> = Vec::new();
    for c in it: text.chars()
        invariant
            chars@ == it.seq().take(it.index() as int),
            it.seq() == text@,
    {
        chars.push(c);
        assert(chars@ =~= it.seq().take(it.index() + 1));
    }
    assert(chars@ =~= text@);
    chars
}

/// `i` is the place of the last dot in `name`.
pub open spec fn last_dot(name: Seq<char>, i: int) -> bool {
    &&& 0 <= i < name.len()
    &&& name[i] == '.'
    &&& forall|j: int| i < j < name.len() ==> name[j] != '.'
}

/// The file name `name` has the extension `ext`: what follows its last dot,
/// where that dot is not the first character. A name that only starts with a
/// dot has no extension, and neither has `..`.
pub open spec fn has_extension(name: Seq<char>, ext: Seq<char>) -> bool {
    &&& name != seq!['.', '.']
    &&& exists|i: int| 0 < i && #[trigger] last_dot(name, i) && name.skip(i + 1) == ext
}

/// The names among `names` that have the extension `ext`, in their order.
pub open spec fn names_with_extension(names: Seq<Seq<char>>, ext: Seq<char>) -> Seq<Seq<char>>
    decreases names.len(),
{
    if names.len() == 0 {
        names
    } else {
        let front = names_with_extension(names.drop_last(), ext);
        if has_extension(names.last(), ext) {
            front.push(names.last())
        } else {
            front
        }
    }
}

/// The texts of a run of names.
pub open spec fn name_views(names: Seq<String>) -> Seq<Seq<char>> {
    names.map_values(|name: String| name@)
}

/// Whether the file name `name` has the extension `ext`.
#[verifier::loop_isolation(false)]
pub fn file_has_extension(name: &str, ext: &str) -> (has: bool)
    ensures
        has == has_extension(name@, ext@),
{
    let chars = chars_of(name);
    let wanted = chars_of(ext);
    let total = chars.len();
    if total == 2 && chars[0] == '.' && chars[1] == '.' {
        assert(name@ =~= seq!['.', '.']);
        return false;
    }
    let mut at = total;
    while at > 0
        invariant
            at <= total,
            total == chars@.len(),
            forall|j: int| at <= j < total ==> chars@[j] != '.',
        decreases at,
    {
        at -= 1;
        if chars[at] == '.' {
            assert(last_dot(chars@, at as int));
            if at == 0 || total - (at + 1) != wanted.len() {
                assert(!has_extension(name@, ext@)) by {
                    if has_extension(name@, ext@) {
                        let i = choose|i: int|
                            0 < i && #[trigger] last_dot(name@, i) && name@.skip(i + 1) == ext@;
                        assert(i == at);
                        assert(name@.skip(i + 1).len() == total - (at + 1));
                    }
                }
                return false;
            }
            let start = at + 1;
            let mut k: usize = 0;
            while k < wanted.len()
                invariant
                    k <= wanted@.len(),
                    start + wanted@.len() == total,
                    total == chars@.len(),
                    forall|j: int| 0 <= j < k ==> chars@[start + j] == wanted@[j],
                decreases wanted@.len() - k,
            {
                if chars[start + k] != wanted[k] {
                    assert(!has_extension(name@, ext@)) by {
                        if has_extension(name@, ext@) {
                            let i = choose|i: int|
                                0 < i && #[trigger] last_dot(name@, i) && name@.skip(i + 1) == ext@;
                            assert(i == at);
                            assert(name@.skip(i + 1)[k as int] == ext@[k as int]);
                        }
                    }
                    return false;
                }
                k += 1;
            }
            assert(name@.skip(at + 1) =~= ext@);
            return true;
        }
    }
    assert(!has_extension(name@, ext@)) by {
        if has_extension(name@, ext@) {
            let i = choose|i: int|
                0 < i && #[trigger] last_dot(name@, i) && name@.skip(i + 1) == ext@;
            assert(name@[i] == '.');
        }
    }
    false
}

/// The file names of a directory listing that have the extension `ext`, in the
/// order of the listing.
pub fn find_files_with_extension(names: &Vec<String>, ext: &str) -> (files: Vec<String>)
    ensures
        name_views(files@) == names_with_extension(name_views(names@), ext@),
{
    let mut files: Vec<String> = Vec::new();
    let ghost all = name_views(names@);
    let mut i: usize = 0;
    assert(all.take(0) =~= Seq::<Seq<char>>::empty());
    while i < names.len()
        invariant
            i <= names@.len(),
            all == name_views(names@),
            name_views(files@) == names_with_extension(all.take(i as int), ext@),
        decreases names@.len() - i,
    {
        let ghost before = name_views(files@);
        proof {
            let next = all.take(i + 1);
            assert(next.drop_last() =~= all.take(i as int));
            assert(next.last() == names@[i as int]@);
        }
        if file_has_extension(names[i].as_str(), ext) {
            files.push(names[i].clone());
            assert(name_views(files@) =~= before.push(names@[i as int]@));
        }
        i += 1;
    }
    assert(all.take(names@.len() as int) =~= all);
    files
}

/// `c` is a decimal digit.
pub open spec fn is_digit(c: char) -> bool {
    '0' <= c <= '9'
}

/// The number that a decimal digit stands for.
pub open spec fn digit_value(c: char) -> nat {
    if is_digit(c) {
        (c as u32 - 48) as nat
    } else {
        0
    }
}

/// The number that a run of decimal digits stands for.
pub open spec fn digits_value(s: Seq<char>) -> nat
    decreases s.len(),
{
    if s.len() == 0 {
        0
    } else {
        digits_value(s.drop_last()) * 10 + digit_value(s.last())
    }
}

/// `s` is a number in decimal as it is written without padding: digits only, at
/// least one, and no leading zero but for zero itself.
pub open spec fn canonical_digits(s: Seq<char>) -> bool {
    &&& s.len() > 0
    &&& forall|i: int| 0 <= i < s.len() ==> is_digit(#[trigger] s[i])
    &&& s[0] == '0' ==> s.len() == 1
}

/// The time in the name of a log file: `Some(v)` for the name that a log made at
/// `v` gets, `None` for every other name.
pub open spec fn stamp_of(name: Seq<char>) -> Option<u128> {
    let stem = name.take(name.len() - 4);
    if name.len() > 4 && name.skip(name.len() - 4) == seq!['.', 'w', 'a', 'l'] && canonical_digits(
        stem,
    ) && digits_value(stem) <= u128::MAX {
        Some(digits_value(stem) as u128)
    } else {
        None
    }
}

/// A number written in decimal is canonical and stands for itself.
pub proof fn lemma_decimal_digits(n: nat)
    ensures
        canonical_digits(decimal_digits(n)),
        digits_value(decimal_digits(n)) == n,
    decreases n,
{
    let s = decimal_digits(n);
    if n < 10 {
        assert(s.drop_last() =~= Seq::<char>::empty());
        assert(digits_value(s) == n) by {
            reveal_with_fuel(digits_value, 2);
        }
    } else {
        let t = decimal_digits(n / 10);
        lemma_decimal_digits(n / 10);
        assert(s.drop_last() =~= t);
        assert(s[0] == t[0]);
        if t[0] == '0' {
            assert(t.drop_last() =~= Seq::<char>::empty());
            assert(digits_value(t) == 0) by {
                reveal_with_fuel(digits_value, 2);
            }
        }
        assert forall|i: int| 0 <= i < s.len() implies is_digit(#[trigger] s[i]) by {
            if i < t.len() {
                assert(s[i] == t[i]);
            }
        }
    }
}

/// Canonical digits are the decimal writing of the number they stand for.
pub proof fn lemma_canonical_digits(s: Seq<char>)
    requires
        canonical_digits(s),
    ensures
        decimal_digits(digits_value(s)) == s,
        s[0] != '0' ==> digits_value(s) >= 1,
    decreases s.len(),
{
    let t = s.drop_last();
    let c = s.last();
    assert(is_digit(s[s.len() - 1]));
    assert(digit_char(digit_value(c)) == c);
    if s.len() == 1 {
        assert(digits_value(t) == 0);
        assert(decimal_digits(digits_value(s)) =~= s);
    } else {
        assert(t[0] == s[0]);
        assert forall|i: int| 0 <= i < t.len() implies is_digit(#[trigger] t[i]) by {
            assert(t[i] == s[i]);
        }
        lemma_canonical_digits(t);
        let v = digits_value(s);
        assert(v / 10 == digits_value(t) && v % 10 == digit_value(c));
        assert(decimal_digits(v) =~= s);
    }
}

/// A run of digits stands for no less than any of its beginnings.
pub proof fn lemma_digits_value_prefix(s: Seq<char>, i: int)
    requires
        0 <= i <= s.len(),
    ensures
        digits_value(s.take(i)) <= digits_value(s),
    decreases s.len(),
{
    if i == s.len() {
        assert(s.take(i) =~= s);
    } else {
        assert(s.take(i) =~= s.drop_last().take(i));
        lemma_digits_value_prefix(s.drop_last(), i);
        assert(digits_value(s.drop_last()) * 10 >= digits_value(s.drop_last())) by (nonlinear_arith);
    }
}

/// The name of a log tells when the log was made.
pub proof fn lemma_stamp_of_wal_name(micros: u128)
    ensures
        stamp_of(wal_name(micros as nat)) == Some(micros),
        has_extension(wal_name(micros as nat), wal_extension()),
{
    let digits = decimal_digits(micros as nat);
    let name = wal_name(micros as nat);
    lemma_decimal_digits(micros as nat);
    assert(name.take(name.len() - 4) =~= digits);
    assert(name.skip(name.len() - 4) =~= seq!['.', 'w', 'a', 'l']);
    let dot = digits.len() as int;
    assert(name[dot] == '.');
    assert forall|j: int| dot < j < name.len() implies name[j] != '.' by {
        assert(name[j] == seq!['.', 'w', 'a', 'l'][j - dot]);
    }
    assert(last_dot(name, dot));
    assert(name.skip(dot + 1) =~= wal_extension());
    assert(name.len() != 2);
}

/// Only the name that a log made at `v` gets has the stamp `v`.
pub proof fn lemma_stamp_of_names(name: Seq<char>)
    ensures
        stamp_of(name) matches Some(v) ==> name == wal_name(v as nat),
{
    if let Some(v) = stamp_of(name) {
        let stem = name.take(name.len() - 4);
        lemma_canonical_digits(stem);
        assert(name =~= stem + name.skip(name.len() - 4));
        assert(wal_name(v as nat) =~= stem + seq!['.', 'w', 'a', 'l']);
    }
}

/// The time in the name of a log file, if the name is one that a log gets.
pub fn log_stamp(name: &str) -> (stamp: Option<u128>)
    ensures
        stamp == stamp_of(name@),
{
    let chars = chars_of(name);
    let total = chars.len();
    if total <= 4 {
        return None;
    }
    let digits = total - 4;
    if chars[digits] != '.' || chars[digits + 1] != 'w' || chars[digits + 2] != 'a' || chars[digits
        + 3] != 'l' {
        assert(name@.skip(name@.len() - 4)[0] == chars@[digits as int]);
        assert(name@.skip(name@.len() - 4)[1] == chars@[digits + 1]);
        assert(name@.skip(name@.len() - 4)[2] == chars@[digits + 2]);
        assert(name@.skip(name@.len() - 4)[3] == chars@[digits + 3]);
        return None;
    }
    assert(name@.skip(name@.len() - 4) =~= seq!['.', 'w', 'a', 'l']);
    let ghost stem = name@.take(name@.len() - 4);
    if chars[0] == '0' && digits > 1 {
        assert(stem[0] == '0');
        return None;
    }
    let mut value: u128 = 0;
    let mut i: usize = 0;
    assert(stem.take(0) =~= Seq::<char>::empty());
    while i < digits
        invariant
            i <= digits,
            digits + 4 == total,
            total == chars@.len(),
            chars@ == name@,
            stem == name@.take(name@.len() - 4),
            value == digits_value(stem.take(i as int)),
            forall|j: int| 0 <= j < i ==> is_digit(#[trigger] stem[j]),
        decreases digits - i,
    {
        let c = chars[i];
        assert(stem[i as int] == c);
        if c < '0' || c > '9' {
            return None;
        }
        let digit = (c as u32 - 48) as u128;
        proof {
            let next = stem.take(i + 1);
            assert(next.drop_last() =~= stem.take(i as int));
            assert(next.last() == c);
            lemma_digits_value_prefix(stem, i + 1);
        }
        let scaled = match value.checked_mul(10) {
            Some(scaled) => scaled,
            None => {
                return None;
            },
        };
        value = match scaled.checked_add(digit) {
            Some(sum) => sum,
            None => {
                return None;
            },
        };
        i += 1;
    }
    assert(stem.take(digits as int) =~= stem);
    Some(value)
}

/// The names among `names` that do not have the extension `ext`, in their order.
pub open spec fn names_without_extension(names: Seq<Seq<char>>, ext: Seq<char>) -> Seq<Seq<char>>
    decreases names.len(),
{
    if names.len() == 0 {
        names
    } else {
        let front = names_without_extension(names.drop_last(), ext);
        if has_extension(names.last(), ext) {
            front
        } else {
            front.push(names.last())
        }
    }
}

/// What a directory lists once recovery is through: every old log is removed,
/// and the log made at `micros` has come.
pub open spec fn listing_after_recovery(listing: Seq<Seq<char>>, micros: nat) -> Seq<Seq<char>> {
    names_without_extension(listing, wal_extension()).push(wal_name(micros))
}

/// Among the names without an extension none has it.
pub proof fn lemma_none_with_extension_left(names: Seq<Seq<char>>, ext: Seq<char>)
    ensures
        names_with_extension(names_without_extension(names, ext), ext) == Seq::<Seq<char>>::empty(),
    decreases names.len(),
{
    if names.len() > 0 {
        let front = names_without_extension(names.drop_last(), ext);
        lemma_none_with_extension_left(names.drop_last(), ext);
        if !has_extension(names.last(), ext) {
            assert(front.push(names.last()).drop_last() =~= front);
        }
    }
}

/// Log collapse: once recovery is through, the directory holds exactly one log,
/// the new one. This is stated for a new log whose name was free: where a log of
/// that name was there before, the new log is one of the old ones and is removed
/// with them.
pub proof fn lemma_log_collapse(listing: Seq<Seq<char>>, micros: u128)
    requires
        !listing.contains(wal_name(micros as nat)),
    ensures
        names_with_extension(listing_after_recovery(listing, micros as nat), wal_extension())
            == seq![wal_name(micros as nat)],
{
    let kept = names_without_extension(listing, wal_extension());
    let after = listing_after_recovery(listing, micros as nat);
    lemma_none_with_extension_left(listing, wal_extension());
    lemma_stamp_of_wal_name(micros);
    assert(after.drop_last() =~= kept);
    assert(names_with_extension(after, wal_extension()) =~= seq![wal_name(micros as nat)]);
}

} // verus!
