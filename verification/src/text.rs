//! The operations on text that the rest of the library is built from.
use vstd::prelude::*;
use vstd::string::*;

verus! {

/// `String::push` appends one character.
pub assume_specification[ String::push ](text: &mut String, c: char)
    ensures
        final(text)@ == old(text)@.push(c),
;

/// `s` with every occurrence of `from` taken out and `to` put in its place, left to right.
pub open spec fn replaced(s: Seq<char>, from: Seq<char>, to: Seq<char>) -> Seq<char>
    decreases s.len(),
{
    if s.len() == 0 || from.len() == 0 {
        s
    } else if from.is_prefix_of(s) {
        to + replaced(s.skip(from.len() as int), from, to)
    } else {
        seq![s[0]] + replaced(s.skip(1), from, to)
    }
}

/// The code of a character, with the letters `A` to `Z` taken as `a` to `z`.
pub open spec fn folded(c: char) -> int {
    if 'A' <= c && c <= 'Z' {
        c as int + 32
    } else {
        c as int
    }
}

/// Whether two texts are the same but for the case of the letters `A` to `Z`.
pub open spec fn same_folded(a: Seq<char>, b: Seq<char>) -> bool {
    &&& a.len() == b.len()
    &&& forall|i: int| 0 <= i < a.len() ==> folded(#[trigger] a[i]) == folded(b[i])
}

/// Whether a text begins with `prefix`, but for the case of the letters `A` to `Z`.
pub open spec fn starts_folded(s: Seq<char>, prefix: Seq<char>) -> bool {
    s.len() >= prefix.len() && same_folded(s.take(prefix.len() as int), prefix)
}

/// The characters that Unicode calls white space.
pub open spec fn is_space(c: char) -> bool {
    ||| 0x9 <= c as u32 <= 0xd
    ||| c as u32 == 0x20
    ||| c as u32 == 0x85
    ||| c as u32 == 0xa0
    ||| c as u32 == 0x1680
    ||| 0x2000 <= c as u32 <= 0x200a
    ||| c as u32 == 0x2028
    ||| c as u32 == 0x2029
    ||| c as u32 == 0x202f
    ||| c as u32 == 0x205f
    ||| c as u32 == 0x3000
}

/// The characters that Unicode calls control codes.
pub open spec fn is_control(c: char) -> bool {
    c as u32 <= 0x1f || 0x7f <= c as u32 <= 0x9f
}

/// The number that `s` writes in decimal digits, the last digit being the lowest.
pub open spec fn decimal(s: Seq<char>) -> int
    decreases s.len(),
{
    if s.len() == 0 {
        0
    } else {
        10 * decimal(s.drop_last()) + (s.last() as int - '0' as int)
    }
}

/// The digits of a number: all of the text but for a plus sign in front.
pub open spec fn digits(s: Seq<char>) -> Seq<char> {
    if s.len() > 0 && s[0] == '+' {
        s.skip(1)
    } else {
        s
    }
}

/// The number that `s` stands for: an optional plus sign, then one or more decimal digits,
/// and a value that fits in 32 bits.
pub open spec fn parsed_u32(s: Seq<char>) -> Option<u32> {
    let ds = digits(s);
    if ds.len() > 0 && (forall|i: int| 0 <= i < ds.len() ==> '0' <= #[trigger] ds[i] <= '9')
        && decimal(ds) <= u32::MAX {
        Some(decimal(ds) as u32)
    } else {
        None
    }
}

/// A number in decimal digits, without leading zeros.
pub open spec fn number_text(n: nat) -> Seq<char>
    decreases n,
{
    if n < 10 {
        seq![('0' as u32 + n) as char]
    } else {
        number_text(n / 10).push(('0' as u32 + n % 10) as char)
    }
}

/// The path of `name` in the directory `dir`.
pub open spec fn joined(dir: Seq<char>, name: Seq<char>) -> Seq<char> {
    if dir.len() == 0 || dir.last() == '/' {
        dir + name
    } else {
        dir.push('/') + name
    }
}

/// What an optional text says.
pub open spec fn text_view(text: Option<String>) -> Option<Seq<char>> {
    match text {
        Some(text) => Some(text@),
        None => None,
    }
}

/// The characters of a text.
pub fn chars(s: &str) -> (r: Vec<char>)
    ensures
        r@ == s@,
{
    let mut r: Vec<char> = Vec::new();
    for c in it: s.chars()
        invariant
            it.seq() == s@,
            r@ == s@.take(it.index() as int),
    {
        r.push(c);
        assert(r@ == s@.take(it.index() as int + 1));
    }
    assert(s@.take(s@.len() as int) == s@);
    r
}

/// Whether two texts are the same.
pub fn same(a: &str, b: &str) -> (r: bool)
    ensures
        r == (a@ == b@),
{
    a.to_owned() == b.to_owned()
}

/// Whether the characters of `part` stand in `whole` from position `at` on.
fn stands_at(whole: &Vec<char>, at: usize, part: &Vec<char>) -> (r: bool)
    requires
        at <= whole@.len(),
    ensures
        r == part@.is_prefix_of(whole@.skip(at as int)),
{
    let size = whole.len();
    if size - at < part.len() {
        return false;
    }
    let mut i: usize = 0;
    while i < part.len()
        invariant
            i <= part@.len(),
            size == whole@.len(),
            at + part@.len() <= size,
            forall|j: int| 0 <= j < i ==> part@[j] == #[trigger] whole@.skip(at as int)[j],
        decreases part.len() - i,
    {
        if whole[at + i] != part[i] {
            assert(whole@.skip(at as int)[i as int] == whole@[at + i]);
            return false;
        }
        i += 1;
    }
    assert(whole@.skip(at as int).take(part@.len() as int) == part@);
    true
}

/// Whether `s` begins with `prefix`.
pub fn starts_with(s: &str, prefix: &str) -> (r: bool)
    ensures
        r == prefix@.is_prefix_of(s@),
{
    let whole = chars(s);
    let part = chars(prefix);
    assert(whole@.skip(0) == whole@);
    stands_at(&whole, 0, &part)
}

/// Whether `s` ends with `suffix`.
pub fn ends_with(s: &str, suffix: &str) -> (r: bool)
    ensures
        r == suffix@.is_suffix_of(s@),
{
    let whole = chars(s);
    let part = chars(suffix);
    if part.len() > whole.len() {
        return false;
    }
    let at: usize = whole.len() - part.len();
    assert(whole@.skip(at as int).take(part@.len() as int) == whole@.skip(at as int));
    stands_at(&whole, at, &part)
}

/// `s` with every `from` replaced by `to`.
pub fn replace(s: &str, from: &str, to: &str) -> (r: String)
    requires
        from@.len() > 0,
    ensures
        r@ == replaced(s@, from@, to@),
{
    let whole = chars(s);
    let part = chars(from);
    let mut r = String::new();
    let mut i: usize = 0;
    assert(s@.skip(0) == s@);
    while i < whole.len()
        invariant
            whole@ == s@,
            part@ == from@,
            from@.len() > 0,
            i <= whole@.len(),
            replaced(s@, from@, to@) == r@ + replaced(s@.skip(i as int), from@, to@),
        decreases whole.len() - i,
    {
        let ghost rest = s@.skip(i as int);
        if stands_at(&whole, i, &part) {
            assert(rest.skip(from@.len() as int) == s@.skip(i + from@.len()));
            r.append(to);
            i += part.len();
        } else {
            assert(rest.skip(1) == s@.skip(i + 1));
            r.push(whole[i]);
            i += 1;
        }
    }
    assert(replaced(s@.skip(i as int), from@, to@) == Seq::<char>::empty());
    r
}

/// The code of `c`, with capital letters of the ASCII range made small.
fn fold(c: char) -> (r: u32)
    ensures
        r == folded(c),
{
    if 'A' <= c && c <= 'Z' {
        c as u32 + 32
    } else {
        c as u32
    }
}

/// Whether the characters from `from` to `to` are those of `other`, the case of ASCII letters
/// aside.
pub fn matches_folded(whole: &Vec<char>, from: usize, to: usize, other: &str) -> (r: bool)
    requires
        from <= to <= whole@.len(),
    ensures
        r == same_folded(whole@.subrange(from as int, to as int), other@),
{
    let part = chars(other);
    if to - from != part.len() {
        return false;
    }
    let mut i: usize = 0;
    while i < part.len()
        invariant
            part@ == other@,
            i <= part@.len(),
            to - from == part@.len(),
            to <= whole@.len(),
            forall|j: int|
                0 <= j < i ==> folded(#[trigger] whole@.subrange(from as int, to as int)[j])
                    == folded(other@[j]),
        decreases part.len() - i,
    {
        if fold(whole[from + i]) != fold(part[i]) {
            assert(whole@.subrange(from as int, to as int)[i as int] == whole@[from + i]);
            return false;
        }
        i += 1;
    }
    true
}

/// Whether the characters from `from` to `to` begin with those of `prefix`.
pub fn range_starts_with(whole: &Vec<char>, from: usize, to: usize, prefix: &str) -> (r: bool)
    requires
        from <= to <= whole@.len(),
    ensures
        r == prefix@.is_prefix_of(whole@.subrange(from as int, to as int)),
{
    let part = chars(prefix);
    let ghost range = whole@.subrange(from as int, to as int);
    if to - from < part.len() {
        return false;
    }
    assert(range.take(part@.len() as int) == whole@.skip(from as int).take(part@.len() as int));
    stands_at(whole, from, &part)
}

/// Whether the characters from `from` to `to` begin with those of `prefix`, the case of ASCII
/// letters aside.
pub fn range_starts_folded(whole: &Vec<char>, from: usize, to: usize, prefix: &str) -> (r: bool)
    requires
        from <= to <= whole@.len(),
    ensures
        r == starts_folded(whole@.subrange(from as int, to as int), prefix@),
{
    let size = chars(prefix).len();
    if to - from < size {
        return false;
    }
    assert(whole@.subrange(from as int, to as int).take(size as int) =~= whole@.subrange(
        from as int,
        from + size,
    ));
    matches_folded(whole, from, from + size, prefix)
}

/// Whether `c` is white space.
pub fn space(c: char) -> (r: bool)
    ensures
        r == is_space(c),
{
    let n = c as u32;
    (0x9 <= n && n <= 0xd) || n == 0x20 || n == 0x85 || n == 0xa0 || n == 0x1680 || (0x2000 <= n
        && n <= 0x200a) || n == 0x2028 || n == 0x2029 || n == 0x202f || n == 0x205f || n == 0x3000
}

/// Whether `s` holds a control code.
pub fn has_control(s: &str) -> (r: bool)
    ensures
        r == exists|i: int| 0 <= i < s@.len() && is_control(#[trigger] s@[i]),
{
    let all = chars(s);
    let mut i: usize = 0;
    while i < all.len()
        invariant
            all@ == s@,
            i <= all@.len(),
            forall|j: int| 0 <= j < i ==> !is_control(#[trigger] s@[j]),
        decreases all.len() - i,
    {
        let n = all[i] as u32;
        if n <= 0x1f || (0x7f <= n && n <= 0x9f) {
            assert(is_control(s@[i as int]));
            return true;
        }
        i += 1;
    }
    false
}

/// More digits never make a number smaller.
proof fn lemma_decimal_grows(s: Seq<char>, n: int)
    requires
        0 <= n <= s.len(),
        forall|i: int| 0 <= i < s.len() ==> '0' <= #[trigger] s[i] <= '9',
    ensures
        0 <= decimal(s.take(n)) <= decimal(s),
    decreases s.len(),
{
    if n == s.len() {
        assert(s.take(n) == s);
        if s.len() > 0 {
            lemma_decimal_grows(s.drop_last(), s.len() - 1);
            assert(s.drop_last().take(s.len() - 1) == s.drop_last());
        }
    } else {
        lemma_decimal_grows(s.drop_last(), n);
        assert(s.drop_last().take(n) == s.take(n));
    }
}

/// The number that `s` stands for, if it stands for one.
pub fn parse_u32(s: &str) -> (r: Option<u32>)
    ensures
        r == parsed_u32(s@),
{
    let all = chars(s);
    let start: usize = if all.len() > 0 && all[0] == '+' {
        1
    } else {
        0
    };
    let ghost ds = digits(s@);
    assert(ds == s@.skip(start as int));
    if start == all.len() {
        return None;
    }
    let mut value: u32 = 0;
    let mut i: usize = start;
    assert(ds.take(0) == Seq::<char>::empty());
    while i < all.len()
        invariant
            all@ == s@,
            ds == digits(s@),
            ds == s@.skip(start as int),
            ds.len() > 0,
            start <= i <= all@.len(),
            value == decimal(ds.take(i - start)),
            forall|j: int| 0 <= j < i - start ==> '0' <= #[trigger] ds[j] <= '9',
        decreases all.len() - i,
    {
        let c = all[i];
        assert(ds[i - start] == c);
        if c < '0' || c > '9' {
            return None;
        }
        let wide: u64 = 10 * (value as u64) + (c as u32 - '0' as u32) as u64;
        assert(ds.take(i - start + 1).drop_last() == ds.take(i - start));
        assert(wide == decimal(ds.take(i - start + 1)));
        if wide > u32::MAX as u64 {
            proof {
                if forall|j: int| 0 <= j < ds.len() ==> '0' <= #[trigger] ds[j] <= '9' {
                    lemma_decimal_grows(ds, i - start + 1);
                }
            }
            return None;
        }
        value = wide as u32;
        i += 1;
    }
    assert(ds.take(ds.len() as int) == ds);
    Some(value)
}

/// The character for a digit.
fn digit(n: usize) -> (r: char)
    requires
        n < 10,
    ensures
        r == ('0' as u32 + n) as char,
{
    match n {
        0 => '0',
        1 => '1',
        2 => '2',
        3 => '3',
        4 => '4',
        5 => '5',
        6 => '6',
        7 => '7',
        8 => '8',
        _ => '9',
    }
}

/// `n` in decimal digits.
pub fn number(n: usize) -> (r: String)
    ensures
        r@ == number_text(n as nat),
    decreases n,
{
    if n < 10 {
        let mut r = String::new();
        r.push(digit(n));
        assert(r@ == number_text(n as nat));
        r
    } else {
        let mut r = number(n / 10);
        r.push(digit(n % 10));
        r
    }
}

/// The path of `name` in the directory `dir`.
pub fn join(dir: &str, name: &str) -> (r: String)
    ensures
        r@ == joined(dir@, name@),
{
    let all = chars(dir);
    let mut r = dir.to_owned();
    if all.len() > 0 && all[all.len() - 1] != '/' {
        r.push('/');
    }
    r.append(name);
    r
}

/// Replacing goes from left to right: what stands before the first `from` stays, `to` takes the
/// place of that, and the rest is treated in the same way. Where there is no `from`, all stays.
pub proof fn law_replacing(
    s: Seq<char>,
    before: Seq<char>,
    from: Seq<char>,
    to: Seq<char>,
    rest: Seq<char>,
)
    requires
        from.len() > 0,
    ensures
        (forall|i: int| 0 <= i <= s.len() - from.len() ==> #[trigger] s.subrange(i, i + from.len())
            != from) ==> replaced(s, from, to) == s,
        s == before + from + rest && (forall|i: int|
            0 <= i < before.len() ==> #[trigger] s.subrange(i, i + from.len()) != from)
            ==> replaced(s, from, to) == before + to + replaced(rest, from, to),
    decreases s.len(),
{
    if s.len() == 0 {
        if s == before + from + rest {
            assert((before + from + rest).len() > 0);
        }
    } else {
        let other = s.skip(1);
        let shorter = before.skip(1);
        law_replacing(other, shorter, from, to, rest);
        if from.is_prefix_of(s) {
            assert(s.subrange(0, from.len() as int) =~= from);
            assert(0 <= s.len() - from.len());
            assert(s.subrange(0int, 0int + from.len()) == from);
        }
        if forall|i: int|
            0 <= i <= s.len() - from.len() ==> #[trigger] s.subrange(i, i + from.len()) != from {
            assert forall|i: int| 0 <= i <= other.len() - from.len() implies #[trigger]
                other.subrange(i, i + from.len()) != from by {
                assert(other.subrange(i, i + from.len()) =~= s.subrange(
                    i + 1,
                    i + 1 + from.len(),
                ));
            }
            assert(seq![s[0]] + other =~= s);
        }
        if s == before + from + rest && (forall|i: int|
            0 <= i < before.len() ==> #[trigger] s.subrange(i, i + from.len()) != from) {
            if before.len() == 0 {
                assert(s.subrange(0, from.len() as int) =~= from);
                assert(from.is_prefix_of(s));
                assert(s.skip(from.len() as int) =~= rest);
                assert(before + to + replaced(rest, from, to) =~= to + replaced(rest, from, to));
            } else {
                assert(other =~= shorter + from + rest);
                assert forall|i: int| 0 <= i < shorter.len() implies #[trigger] other.subrange(
                    i,
                    i + from.len(),
                ) != from by {
                    assert(other.subrange(i, i + from.len()) =~= s.subrange(
                        i + 1,
                        i + 1 + from.len(),
                    ));
                }
                assert(s.subrange(0int, 0int + from.len()) != from);
                assert(s[0] == before[0]);
                assert(seq![s[0]] + (shorter + to + replaced(rest, from, to)) =~= before + to
                    + replaced(rest, from, to));
            }
        }
    }
}

/// A number in decimal digits has digits only and no zero in front, and stands for the number.
pub proof fn law_numbers_are_written_in_full(n: nat)
    ensures
        number_text(n).len() > 0,
        forall|i: int| 0 <= i < number_text(n).len() ==> '0' <= #[trigger] number_text(n)[i] <= '9',
        n > 0 ==> number_text(n)[0] != '0',
        n == 0 ==> number_text(n) == seq!['0'],
        decimal(number_text(n)) == n,
    decreases n,
{
    reveal_with_fuel(decimal, 2);
    let all = number_text(n);
    if n < 10 {
        assert(all.drop_last() =~= seq![]);
        assert(all.last() as int == 48 + n);
        assert(n == 0 ==> all =~= seq!['0']);
    } else {
        law_numbers_are_written_in_full(n / 10);
        assert(all.drop_last() =~= number_text(n / 10));
        assert(all.last() as int == 48 + n % 10);
    }
}

/// The value of decimal digits: each digit counts ten times as much as the one behind it.
pub proof fn law_decimal_places(digits: Seq<char>, digit: char)
    ensures
        decimal(seq![]) == 0,
        decimal(digits.push(digit)) == 10 * decimal(digits) + (digit as int - 48),
{
    assert(digits.push(digit).drop_last() =~= digits);
}

/// A text stands for a number if it is decimal digits, one at least and with an optional plus sign
/// in front, and their value fits.
pub proof fn law_what_is_a_number(digits: Seq<char>, text: Seq<char>)
    ensures
        digits.len() > 0 && (forall|i: int|
            0 <= i < digits.len() ==> '0' <= #[trigger] digits[i] <= '9') && decimal(digits)
            <= u32::MAX && (text == digits || text == seq!['+'] + digits) ==> parsed_u32(text)
            == Some(decimal(digits) as u32),
        (text == digits || text == seq!['+'] + digits) && !(digits.len() > 0 && digits[0] == '+')
            && (digits.len() == 0 || decimal(digits) > u32::MAX || exists|i: int|
            0 <= i < digits.len() && !('0' <= #[trigger] digits[i] <= '9')) ==> parsed_u32(text)
            is None,
{
    if text == seq!['+'] + digits {
        assert(text.skip(1) =~= digits);
        assert(text[0] == '+');
    }
    if digits.len() > 0 && '0' <= digits[0] <= '9' {
        assert(digits[0] != '+');
    }
}

/// A path in a directory is the directory, a slash if it does not end in one, and the name.
pub proof fn law_paths(dir: Seq<char>, name: Seq<char>)
    ensures
        dir.len() > 0 && dir.last() != '/' ==> joined(dir, name) == dir + seq!['/'] + name,
        dir.len() > 0 && dir.last() == '/' ==> joined(dir, name) == dir + name,
        dir.len() == 0 ==> joined(dir, name) == name,
{
    assert(dir.push('/') =~= dir + seq!['/']);
    if dir.len() == 0 {
        assert(dir + name =~= name);
    }
}

/// A text, if there is one, is told by its characters.
pub proof fn law_text_is_its_characters(text: String)
    ensures
        text_view(Some(text)) == Some(text@),
        text_view(None) is None,
{
}

/// Control codes are those up to 31 and from 127 to 159.
pub proof fn law_control_codes(c: char)
    ensures
        is_control(c) <==> c as int <= 31 || 127 <= c as int <= 159,
{
}

} // verus!
