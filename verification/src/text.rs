//! Numbers in decimal, extensions of file names, and texts inside texts.
use vstd::prelude::*;

verus! {

/// The decimal digits of a number, as ASCII codes, without leading zeros.
pub open spec fn decimal_digits(n: nat) -> Seq<u8>
    decreases n,
{
    if n < 10 {
        seq![(48 + n) as u8]
    } else {
        decimal_digits(n / 10).push((48 + n % 10) as u8)
    }
}

/// A number in decimal.
pub open spec fn decimal_text(n: nat) -> Seq<char> {
    decimal_digits(n).map_values(|digit: u8| digit as char)
}

/// The index of the last `.` in `text`; -1 if there is none.
pub open spec fn last_dot(text: Seq<char>) -> int
    decreases text.len(),
{
    if text.len() == 0 {
        -1
    } else if text.last() == '.' {
        text.len() - 1
    } else {
        last_dot(text.drop_last())
    }
}

/// A letter from A to Z in lower case; every other character as it is.
pub open spec fn ascii_lower(c: char) -> char {
    if 'A' <= c && c <= 'Z' {
        ((c as u8) + 32) as char
    } else {
        c
    }
}

/// What follows the last dot of a file name, in lower case; empty without a dot.
pub open spec fn lower_extension(name: Seq<char>) -> Seq<char> {
    if last_dot(name) < 0 {
        Seq::empty()
    } else {
        name.subrange(last_dot(name) + 1, name.len() as int).map_values(|c: char| ascii_lower(c))
    }
}

/// The extension of a file name as file systems count it: a dot at the very front does
/// not start one.
pub open spec fn path_extension(name: Seq<char>) -> Option<Seq<char>> {
    if last_dot(name) <= 0 {
        None
    } else {
        Some(name.subrange(last_dot(name) + 1, name.len() as int))
    }
}

/// `text` without the NUL characters at its end.
pub open spec fn without_trailing_nul(text: Seq<char>) -> Seq<char>
    decreases text.len(),
{
    if text.len() > 0 && text.last() == '\0' {
        without_trailing_nul(text.drop_last())
    } else {
        text
    }
}

/// Whether `part` occurs somewhere in `text`.
pub open spec fn contains_text(text: Seq<char>, part: Seq<char>) -> bool {
    exists|at: int|
        0 <= at <= text.len() - part.len() && #[trigger] text.subrange(at, at + part.len()) == part
}

/// The decimal digits of a number.
pub(crate) fn decimal(n: u64) -> (digits: Vec<u8>)
    ensures
        digits@ == decimal_digits(n as nat),
        digits@.len() >= 1,
    decreases n,
{
    if n < 10 {
        let mut digits: Vec<u8> = Vec::new();
        digits.push((48 + n) as u8);
        assert(digits@ =~= decimal_digits(n as nat));
        digits
    } else {
        let mut digits = decimal(n / 10);
        digits.push((48 + n % 10) as u8);
        digits
    }
}

/// Appends a number in decimal.
pub(crate) fn push_decimal(text: &mut String, n: u64)
    ensures
        final(text)@ == old(text)@ + decimal_text(n as nat),
{
    let digits = decimal(n);
    for i in 0..digits.len()
        invariant
            digits@ == decimal_digits(n as nat),
            text@ == old(text)@ + decimal_text(n as nat).subrange(0, i as int),
    {
        text.push(digits[i] as char);
        assert(decimal_text(n as nat).subrange(0, i + 1) =~= decimal_text(n as nat).subrange(
            0,
            i as int,
        ).push(digits[i as int] as char));
    }
    assert(decimal_text(n as nat).subrange(0, digits@.len() as int) =~= decimal_text(n as nat));
}

/// Whether two texts are the same.
pub(crate) fn same_text(a: &str, b: &str) -> (same: bool)
    ensures
        same == (a@ == b@),
{
    a.to_string() == b.to_string()
}

/// The characters of a text.
pub(crate) fn characters(text: &str) -> (chars: Vec<char>)
    ensures
        chars@ == text@,
{
    let mut chars: Vec<char> = Vec::new();
    for c in it: text.chars()
        invariant
            chars@ == it.seq().subrange(0, it.index() as int),
            it.seq() == text@,
    {
        chars.push(c);
    }
    chars
}

/// The text made of the given characters, from index `from` on.
fn text_from(chars: &Vec<char>, from: usize) -> (text: String)
    requires
        from <= chars@.len(),
    ensures
        text@ == chars@.subrange(from as int, chars@.len() as int),
{
    let mut text = String::new();
    for i in from..chars.len()
        invariant
            from <= i <= chars@.len(),
            text@ == chars@.subrange(from as int, i as int),
    {
        text.push(chars[i]);
        assert(chars@.subrange(from as int, i + 1) =~= chars@.subrange(from as int, i as int).push(
            chars@[i as int],
        ));
    }
    text
}

/// The text without the NUL characters at its end.
pub(crate) fn trim_trailing_nul(text: &str) -> (rest: String)
    ensures
        rest@ == without_trailing_nul(text@),
{
    let mut chars = characters(text);
    while chars.len() > 0 && chars[chars.len() - 1] == '\0'
        invariant
            without_trailing_nul(chars@) == without_trailing_nul(text@),
        decreases chars@.len(),
    {
        let ghost before = chars@;
        let _ = chars.pop();
        assert(chars@ =~= before.drop_last());
    }
    assert(chars@.subrange(0, chars@.len() as int) =~= chars@);
    text_from(&chars, 0)
}

/// Where the last dot stands.
fn find_last_dot(chars: &Vec<char>) -> (at: Option<usize>)
    ensures
        match at {
            Some(i) => last_dot(chars@) == i && i < chars@.len(),
            None => last_dot(chars@) == -1,
        },
{
    let mut left = chars.len();
    assert(chars@.subrange(0, left as int) =~= chars@);
    while left > 0
        invariant
            left <= chars@.len(),
            last_dot(chars@) == last_dot(chars@.subrange(0, left as int)),
        decreases left,
    {
        assert(chars@.subrange(0, left as int).drop_last() =~= chars@.subrange(0, left - 1));
        if chars[left - 1] == '.' {
            return Some(left - 1);
        }
        left = left - 1;
    }
    None
}

/// What follows the last dot of a file name, in lower case.
pub(crate) fn extension_in_lower_case(name: &str) -> (ext: String)
    ensures
        ext@ == lower_extension(name@),
{
    let chars = characters(name);
    let mut ext = String::new();
    if let Some(dot) = find_last_dot(&chars) {
        let ghost full = lower_extension(name@);
        for i in dot + 1..chars.len()
            invariant
                chars@ == name@,
                dot == last_dot(chars@),
                dot < i <= chars@.len(),
                full == lower_extension(name@),
                ext@ == full.subrange(0, i - dot - 1),
        {
            let c = chars[i];
            let lower = if 'A' <= c && c <= 'Z' {
                (c as u8 + 32) as char
            } else {
                c
            };
            ext.push(lower);
            assert(full.subrange(0, i - dot) =~= full.subrange(0, i - dot - 1).push(lower));
        }
        assert(full.subrange(0, chars@.len() - dot - 1) =~= full);
    }
    ext
}

/// The extension of a file name, if it has one.
pub(crate) fn extension_of_path(name: &str) -> (ext: Option<String>)
    ensures
        match ext {
            Some(text) => path_extension(name@) == Some(text@),
            None => path_extension(name@) is None,
        },
{
    let chars = characters(name);
    match find_last_dot(&chars) {
        Some(dot) => if dot > 0 {
            assert(dot < chars.len());
            Some(text_from(&chars, dot + 1))
        } else {
            None
        },
        None => None,
    }
}

/// Whether `part` occurs somewhere in `text`.
pub(crate) fn has_part(text: &str, part: &str) -> (yes: bool)
    ensures
        yes == contains_text(text@, part@),
{
    let chars = characters(text);
    let wanted = characters(part);
    if wanted.len() > chars.len() {
        return false;
    }
    if wanted.is_empty() {
        assert(text@.subrange(0int, 0int + part@.len()) =~= part@);
        return true;
    }
    let last = chars.len() - wanted.len();
    let mut at: usize = 0;
    while at <= last
        invariant
            chars@ == text@,
            wanted@ == part@,
            last == chars@.len() - wanted@.len(),
            at <= last + 1,
            last < usize::MAX,
            forall|x: int|
                0 <= x < at ==> #[trigger] text@.subrange(x, x + part@.len()) != part@,
        decreases last + 1 - at,
    {
        let mut same: usize = 0;
        while same < wanted.len() && chars[at + same] == wanted[same]
            invariant
                chars@ == text@,
                wanted@ == part@,
                at + wanted@.len() <= chars@.len(),
                chars.len() == chars@.len(),
                same <= wanted@.len(),
                forall|x: int| 0 <= x < same ==> text@[at + x] == part@[x],
            ensures
                same < wanted@.len() ==> text@[at + same] != part@[same as int],
                same <= wanted@.len(),
                forall|x: int| 0 <= x < same ==> text@[at + x] == part@[x],
            decreases wanted@.len() - same,
        {
            same = same + 1;
        }
        if same == wanted.len() {
            assert(text@.subrange(at as int, at + part@.len()) =~= part@);
            return true;
        }
        assert(text@.subrange(at as int, at + part@.len())[same as int] != part@[same as int]);
        at = at + 1;
    }
    false
}

/// The last dot of a name is the one in front of its extension.
pub proof fn lemma_last_dot_before(stem: Seq<char>, ext: Seq<char>)
    requires
        !ext.contains('.'),
    ensures
        last_dot(stem + seq!['.'] + ext) == stem.len(),
    decreases ext.len(),
{
    let name = stem + seq!['.'] + ext;
    if ext.len() > 0 {
        let shorter = ext.drop_last();
        assert(ext.contains(ext.last()));
        assert(name.last() == ext.last());
        assert(name.drop_last() =~= stem + seq!['.'] + shorter);
        assert forall|c: char| shorter.contains(c) implies ext.contains(c) by {
            let i = choose|i: int| 0 <= i < shorter.len() && shorter[i] == c;
            assert(ext[i] == c);
        }
        lemma_last_dot_before(stem, shorter);
    } else {
        assert(name.last() == '.');
    }
}

/// The number that decimal digits stand for.
pub open spec fn digits_value(digits: Seq<u8>) -> int
    decreases digits.len(),
{
    if digits.len() == 0 {
        0
    } else {
        10 * digits_value(digits.drop_last()) + (digits.last() - 48)
    }
}

/// A number is written in decimal digits that stand for it, and it has a leading zero only
/// if it is zero.
pub proof fn law_decimal_digits(n: nat)
    ensures
        decimal_digits(n).len() >= 1,
        forall|i: int| 0 <= i < decimal_digits(n).len() ==> 48 <= #[trigger] decimal_digits(n)[i] <= 57,
        digits_value(decimal_digits(n)) == n,
        decimal_digits(n)[0] == 48 ==> n == 0 && decimal_digits(n).len() == 1,
        decimal_text(n).len() == decimal_digits(n).len(),
        forall|i: int|
            0 <= i < decimal_digits(n).len() ==> #[trigger] decimal_text(n)[i] as int
                == decimal_digits(n)[i],
    decreases n,
{
    let digits = decimal_digits(n);
    if n >= 10 {
        law_decimal_digits(n / 10);
        assert(digits.drop_last() =~= decimal_digits(n / 10));
        assert(digits[0] == decimal_digits(n / 10)[0]);
    } else {
        assert(digits.drop_last() =~= Seq::<u8>::empty());
        assert(digits_value(digits.drop_last()) == 0);
    }
}

/// The extension of a name is what follows its last dot, each letter from A to Z replaced by
/// the one 32 places behind it, and every other character as it is; a name without a dot has
/// none.
pub proof fn law_lower_extension(stem: Seq<char>, ext: Seq<char>)
    requires
        !ext.contains('.'),
    ensures
        ({
            let lower = lower_extension(stem + seq!['.'] + ext);
            &&& lower.len() == ext.len()
            &&& forall|i: int|
                0 <= i < ext.len() ==> #[trigger] lower[i] as int == (if 65 <= ext[i] as int
                    <= 90 {
                    ext[i] as int + 32
                } else {
                    ext[i] as int
                })
        }),
        lower_extension(ext).len() == 0,
{
    let name = stem + seq!['.'] + ext;
    lemma_last_dot_before(stem, ext);
    lemma_no_dot(ext);
    assert(name.subrange(stem.len() as int + 1, name.len() as int) =~= ext);
}

proof fn lemma_no_dot(text: Seq<char>)
    requires
        !text.contains('.'),
    ensures
        last_dot(text) == -1,
    decreases text.len(),
{
    if text.len() > 0 {
        let shorter = text.drop_last();
        assert(text.contains(text.last()));
        assert forall|c: char| shorter.contains(c) implies text.contains(c) by {
            let i = choose|i: int| 0 <= i < shorter.len() && shorter[i] == c;
            assert(text[i] == c);
        }
        lemma_no_dot(shorter);
    }
}

/// What file systems take as the extension of a name: what follows its last dot, if anything
/// stands in front of that dot.
pub proof fn law_path_extension(stem: Seq<char>, ext: Seq<char>)
    requires
        !ext.contains('.'),
    ensures
        stem.len() > 0 ==> path_extension(stem + seq!['.'] + ext) == Some(ext),
        stem.len() == 0 ==> path_extension(stem + seq!['.'] + ext) is None,
        path_extension(ext) is None,
{
    let name = stem + seq!['.'] + ext;
    lemma_last_dot_before(stem, ext);
    lemma_no_dot(ext);
    assert(name.subrange(stem.len() as int + 1, name.len() as int) =~= ext);
}

proof fn lemma_last_dot_shape(text: Seq<char>)
    ensures
        -1 <= last_dot(text) < text.len(),
        last_dot(text) >= 0 ==> text[last_dot(text)] == '.',
        forall|i: int| last_dot(text) < i < text.len() ==> #[trigger] text[i] != '.',
    decreases text.len(),
{
    if text.len() > 0 && text.last() != '.' {
        lemma_last_dot_shape(text.drop_last());
        assert forall|i: int| last_dot(text) < i < text.len() implies #[trigger] text[i] != '.' by {
            if i < text.len() - 1 {
                assert(text.drop_last()[i] != '.');
            }
        }
    }
}

/// A name has the extension `ext`, which holds no dot, exactly if it ends in a dot and
/// `ext` and something stands in front of the two.
pub proof fn law_has_extension(name: Seq<char>, ext: Seq<char>)
    requires
        !ext.contains('.'),
    ensures
        path_extension(name) == Some(ext) <==> name.len() > ext.len() + 1 && (seq!['.']
            + ext).is_suffix_of(name),
{
    let n = name.len() as int;
    let tail = seq!['.'] + ext;
    lemma_last_dot_shape(name);
    if path_extension(name) == Some(ext) {
        let at = last_dot(name);
        assert(name.subrange(at + 1, n) == ext);
        assert(name.subrange(at, n) =~= tail);
    }
    if name.len() > ext.len() + 1 && tail.is_suffix_of(name) {
        let stem = name.subrange(0, n - tail.len());
        assert(name.subrange(n - tail.len(), n) == tail);
        assert(name =~= stem + tail);
        assert(stem + tail =~= stem + seq!['.'] + ext);
        law_path_extension(stem, ext);
    }
}

/// A text that contains a part is made of something, the part, and something else, and every
/// text that is made so contains the part.
pub proof fn law_contains_text(
    text: Seq<char>,
    before: Seq<char>,
    part: Seq<char>,
    behind: Seq<char>,
)
    ensures
        contains_text(before + part + behind, part),
        contains_text(text, part) ==> exists|a: Seq<char>, b: Seq<char>|
            text == #[trigger] (a + part + b),
{
    if contains_text(text, part) {
        let at = choose|at: int|
            0 <= at <= text.len() - part.len() && #[trigger] text.subrange(at, at + part.len())
                == part;
        let a = text.subrange(0, at);
        let b = text.subrange(at + part.len(), text.len() as int);
        assert(text.subrange(at, at + part.len()) == part);
        assert(text =~= a + part + b);
    }
    let text = before + part + behind;
    let at = before.len() as int;
    assert(text.subrange(at, at + part.len()) =~= part);
}

/// Dropping NULs at the end drops nothing else: what is left does not end in one, and only
/// NULs are missing.
pub proof fn law_trailing_nul_dropped(text: Seq<char>)
    ensures
        ({
            let rest = without_trailing_nul(text);
            &&& rest.len() <= text.len()
            &&& rest.len() > 0 ==> rest.last() != '\0'
            &&& forall|i: int| 0 <= i < rest.len() ==> #[trigger] rest[i] == text[i]
            &&& forall|i: int| rest.len() <= i < text.len() ==> #[trigger] text[i] == '\0'
        }),
    decreases text.len(),
{
    let rest = without_trailing_nul(text);
    if text.len() > 0 && text.last() == '\0' {
        let shorter = text.drop_last();
        law_trailing_nul_dropped(shorter);
        assert forall|i: int| 0 <= i < rest.len() implies #[trigger] rest[i] == text[i] by {
            assert(rest[i] == shorter[i]);
        }
        assert forall|i: int| rest.len() <= i < text.len() implies #[trigger] text[i] == '\0' by {
            if i < shorter.len() {
                assert(shorter[i] == '\0');
            }
        }
    }
}

} // verus!
