//! Small verified string helpers: prefix/suffix/substring tests, splitting,
//! decimal parsing and formatting. They work character-wise over the
//! sequence view of `str`.

use vstd::prelude::*;

verus! {

/// `sub` occurs in `s` starting at `k`.
pub open spec fn match_at(s: Seq<char>, sub: Seq<char>, k: int) -> bool {
    0 <= k && k + sub.len() <= s.len() && s.subrange(k, k + sub.len() as int) == sub
}

/// `sub` occurs somewhere in `s`.
pub open spec fn has_substring(s: Seq<char>, sub: Seq<char>) -> bool {
    exists|k: int| match_at(s, sub, k)
}

/// Whether `s` starts with `p`.
pub fn str_starts_with(s: &str, p: &str) -> (r: bool)
    ensures
        r == (p@.len() <= s@.len() && s@.subrange(0, p@.len() as int) == p@),
{
    let sl = s.unicode_len();
    let pl = p.unicode_len();
    if pl > sl {
        return false;
    }
    let mut i: usize = 0;
    while i < pl
        invariant
            i <= pl,
            pl == p@.len(),
            pl <= s@.len(),
            forall|j: int| 0 <= j < i ==> s@[j] == p@[j],
        decreases pl - i,
    {
        if s.get_char(i) != p.get_char(i) {
            proof {
                assert(s@.subrange(0, p@.len() as int)[i as int] == s@[i as int]);
            }
            return false;
        }
        i = i + 1;
    }
    proof {
        assert(s@.subrange(0, p@.len() as int) =~= p@);
    }
    true
}

/// Whether `s` ends with `p`.
pub fn str_ends_with(s: &str, p: &str) -> (r: bool)
    ensures
        r == (p@.len() <= s@.len() && s@.subrange(s@.len() - p@.len(), s@.len() as int) == p@),
{
    let sl = s.unicode_len();
    let pl = p.unicode_len();
    if pl > sl {
        return false;
    }
    let off = sl - pl;
    let mut i: usize = 0;
    while i < pl
        invariant
            i <= pl,
            pl == p@.len(),
            sl == s@.len(),
            off == sl - pl,
            forall|j: int| 0 <= j < i ==> s@[off + j] == p@[j],
        decreases pl - i,
    {
        if s.get_char(off + i) != p.get_char(i) {
            proof {
                assert(s@.subrange(s@.len() - p@.len(), s@.len() as int)[i as int] == s@[off + i]);
            }
            return false;
        }
        i = i + 1;
    }
    proof {
        assert(s@.subrange(s@.len() - p@.len(), s@.len() as int) =~= p@);
    }
    true
}

/// The first position where `sub` occurs in `s`, if any.
pub fn str_find(s: &str, sub: &str) -> (r: Option<usize>)
    ensures
        match r {
            Some(k) => match_at(s@, sub@, k as int) && (forall|k2: int|
                0 <= k2 < k ==> !match_at(s@, sub@, k2)),
            None => !has_substring(s@, sub@),
        },
{
    let sl = s.unicode_len();
    let bl = sub.unicode_len();
    if bl > sl {
        proof {
            assert forall|k: int| !match_at(s@, sub@, k) by {}
        }
        return None;
    }
    let mut k: usize = 0;
    while k <= sl - bl
        invariant
            sl == s@.len(),
            bl == sub@.len(),
            bl <= sl,
            k <= sl - bl + 1,
            forall|k2: int| 0 <= k2 < k ==> !match_at(s@, sub@, k2),
        decreases sl - bl - k + 1,
    {
        let mut i: usize = 0;
        let mut matches = true;
        while i < bl
            invariant
                i <= bl,
                bl == sub@.len(),
                sl == s@.len(),
                k + bl <= sl,
                matches ==> forall|j: int| 0 <= j < i ==> s@[k + j] == sub@[j],
                !matches ==> !match_at(s@, sub@, k as int),
            decreases bl - i,
        {
            if matches && s.get_char(k + i) != sub.get_char(i) {
                proof {
                    if match_at(s@, sub@, k as int) {
                        assert(s@.subrange(k as int, k + sub@.len() as int)[i as int] == s@[k + i]);
                    }
                }
                matches = false;
            }
            i = i + 1;
        }
        if matches {
            proof {
                assert(s@.subrange(k as int, k + sub@.len() as int) =~= sub@);
            }
            return Some(k);
        }
        proof {
            // an empty needle matches everywhere, so here it is non-empty
            if bl == 0 {
                assert(s@.subrange(k as int, k as int) =~= sub@);
                assert(match_at(s@, sub@, k as int));
            }
        }
        k = k + 1;
    }
    proof {
        assert forall|k2: int| !match_at(s@, sub@, k2) by {
            if 0 <= k2 <= sl - bl {
                assert(!match_at(s@, sub@, k2));
            }
        }
    }
    None
}

/// Character-wise string equality.
pub fn str_eq(a: &str, b: &str) -> (r: bool)
    ensures
        r == (a@ == b@),
{
    let al = a.unicode_len();
    let bl = b.unicode_len();
    if al != bl {
        proof {
            assert(a@ != b@);
        }
        return false;
    }
    let mut i: usize = 0;
    while i < al
        invariant
            i <= al,
            al == a@.len(),
            bl == b@.len(),
            al == bl,
            forall|j: int| 0 <= j < i ==> a@[j] == b@[j],
        decreases al - i,
    {
        if a.get_char(i) != b.get_char(i) {
            return false;
        }
        i = i + 1;
    }
    proof {
        assert(a@ =~= b@);
    }
    true
}

/// Whether `sub` occurs in `s`.
pub fn str_contains(s: &str, sub: &str) -> (r: bool)
    ensures
        r == has_substring(s@, sub@),
{
    str_find(s, sub).is_some()
}

/// The pieces of `s` between occurrences of the separator character, in
/// order: splitting never loses or reorders characters.
pub open spec fn spec_split(s: Seq<char>, sep: char) -> Seq<Seq<char>>
    decreases s.len(),
{
    if exists|k: int| 0 <= k < s.len() && s[k] == sep {
        let k = choose|k: int|
            0 <= k < s.len() && s[k] == sep && (forall|k2: int| 0 <= k2 < k ==> s[k2] != sep);
        if 0 <= k < s.len() && s[k] == sep && (forall|k2: int| 0 <= k2 < k ==> s[k2] != sep) {
            seq![s.subrange(0, k)] + spec_split(s.subrange(k + 1, s.len() as int), sep)
        } else {
            seq![s]
        }
    } else {
        seq![s]
    }
}

/// There is a first occurrence whenever there is one at all.
proof fn lemma_first_occurrence(s: Seq<char>, sep: char)
    requires
        exists|k: int| 0 <= k < s.len() && s[k] == sep,
    ensures
        exists|k: int|
            0 <= k < s.len() && s[k] == sep && (forall|k2: int| 0 <= k2 < k ==> s[k2] != sep),
    decreases s.len(),
{
    let k0 = choose|k: int| 0 <= k < s.len() && s[k] == sep;
    if exists|k: int| 0 <= k < k0 && s[k] == sep {
        let s2 = s.subrange(0, k0);
        assert(exists|k: int| 0 <= k < s2.len() && s2[k] == sep) by {
            let k1 = choose|k: int| 0 <= k < k0 && s[k] == sep;
            assert(s2[k1] == sep);
        }
        lemma_first_occurrence(s2, sep);
        let k = choose|k: int|
            0 <= k < s2.len() && s2[k] == sep && (forall|k2: int| 0 <= k2 < k ==> s2[k2] != sep);
        assert(s[k] == sep);
        assert forall|k2: int| 0 <= k2 < k implies s[k2] != sep by {
            assert(s2[k2] == s[k2]);
        }
    } else {
        assert(forall|k2: int| 0 <= k2 < k0 ==> s[k2] != sep);
    }
}

/// Splits `s` at every occurrence of `sep`.
pub fn str_split_char(s: &str, sep: char) -> (r: Vec<String>)
    ensures
        r@.map_values(|p: String| p@) == spec_split(s@, sep),
    decreases s@.len(),
{
    let l = s.unicode_len();
    let mut k: usize = 0;
    while k < l
        invariant
            l == s@.len(),
            k <= l,
            forall|k2: int| 0 <= k2 < k ==> s@[k2] != sep,
        decreases l - k,
    {
        if s.get_char(k) == sep {
            let head = s.substring_char(0, k);
            let tail = s.substring_char(k + 1, l);
            let mut rest = str_split_char(tail, sep);
            let mut r: Vec<String> = Vec::new();
            r.push(head.to_owned());
            let ghost rest0 = rest@;
            r.append(&mut rest);
            proof {
                let k0 = choose|k0: int|
                    0 <= k0 < s@.len() && s@[k0] == sep && (forall|k2: int|
                        0 <= k2 < k0 ==> s@[k2] != sep);
                assert(k0 == k as int) by {
                    if k0 < k {
                        assert(s@[k0] != sep);
                    }
                    if k0 > k {
                        assert(s@[k as int] != sep);
                    }
                }
                assert(spec_split(s@, sep) == seq![s@.subrange(0, k as int)] + spec_split(
                    s@.subrange(k + 1, s@.len() as int),
                    sep,
                ));
                assert(r@.map_values(|p: String| p@) =~= seq![s@.subrange(0, k as int)]
                    + rest0.map_values(|p: String| p@));
            }
            return r;
        }
        k = k + 1;
    }
    let mut r: Vec<String> = Vec::new();
    r.push(s.to_owned());
    proof {
        assert(!(exists|k2: int| 0 <= k2 < s@.len() && s@[k2] == sep));
        assert(spec_split(s@, sep) == seq![s@]);
        assert(r@.map_values(|p: String| p@) =~= seq![s@]);
    }
    r
}

/// All characters are decimal digits.
pub open spec fn all_digits(s: Seq<char>) -> bool {
    forall|i: int| 0 <= i < s.len() ==> '0' <= #[trigger] s[i] <= '9'
}

/// The value of one decimal digit (0 for any other character).
pub open spec fn digit_val(c: char) -> nat {
    if '0' <= c <= '9' {
        (c as int - '0' as int) as nat
    } else {
        0
    }
}

/// The numeric value of a digit string.
pub open spec fn dec_val(s: Seq<char>) -> nat
    decreases s.len(),
{
    if s.len() == 0 {
        0
    } else {
        dec_val(s.drop_last()) * 10 + digit_val(s.last())
    }
}

/// The digits of a number written with an optional leading plus sign, as
/// the standard unsigned integer parser reads it.
pub open spec fn unsigned_digits(s: Seq<char>) -> Seq<char> {
    if s.len() > 0 && s[0] == '+' {
        s.drop_first()
    } else {
        s
    }
}

/// Parses a decimal number, as the standard unsigned integer parser does:
/// some value comes back exactly when an optional leading plus sign is
/// followed by one or more digits whose value fits.
pub fn parse_u32(s: &str) -> (r: Option<u32>)
    ensures
        match r {
            Some(v) => ({
                let d = unsigned_digits(s@);
                d.len() > 0 && all_digits(d) && v as nat == dec_val(d) && dec_val(d)
                    <= u32::MAX as nat
            }),
            None => ({
                let d = unsigned_digits(s@);
                d.len() == 0 || !all_digits(d) || dec_val(d) > u32::MAX as nat
            }),
        },
{
    let l = s.unicode_len();
    let mut i: usize = 0;
    if l > 0 && s.get_char(0) == '+' {
        i = 1;
    }
    let ghost start = i as int;
    let ghost d = unsigned_digits(s@);
    proof {
        assert(d =~= s@.subrange(start, l as int));
    }
    if i == l {
        return None;
    }
    let mut acc: u32 = 0;
    while i < l
        invariant
            0 <= start <= i <= l,
            l == s@.len(),
            d == unsigned_digits(s@),
            d == s@.subrange(start, l as int),
            acc as nat == dec_val(s@.subrange(start, i as int)),
            all_digits(s@.subrange(start, i as int)),
        decreases l - i,
    {
        let c = s.get_char(i);
        proof {
            assert(d[i - start] == s@[i as int]);
        }
        if !('0' <= c && c <= '9') {
            proof {
                assert(!('0' <= d[i - start] <= '9'));
                assert(!all_digits(d));
            }
            return None;
        }
        let dv = (c as u32) - ('0' as u32);
        proof {
            assert(s@.subrange(start, i + 1int).drop_last() =~= s@.subrange(start, i as int));
            assert(s@.subrange(start, i + 1int).last() == s@[i as int]);
            assert(dec_val(s@.subrange(start, i + 1int)) == acc * 10 + digit_val(s@[i as int]));
        }
        if acc > (u32::MAX - dv) / 10 {
            proof {
                assert(acc * 10 + dv > u32::MAX) by (nonlinear_arith)
                    requires
                        acc > (u32::MAX - dv) / 10,
                        dv <= 9,
                ;
                lemma_dec_val_monotone(d, i + 1 - start);
                assert(d.take(i + 1 - start) =~= s@.subrange(start, i + 1int));
                assert(dec_val(d) > u32::MAX as nat);
            }
            return None;
        }
        acc = acc * 10 + dv;
        i = i + 1;
    }
    proof {
        assert(s@.subrange(start, l as int) == d);
    }
    Some(acc)
}

/// A longer digit prefix never has a smaller value.
proof fn lemma_dec_val_monotone(s: Seq<char>, i: int)
    requires
        0 <= i <= s.len(),
    ensures
        dec_val(s.take(i)) <= dec_val(s),
    decreases s.len() - i,
{
    if i < s.len() {
        lemma_dec_val_monotone(s, i + 1);
        assert(s.take(i + 1).drop_last() == s.take(i));
        assert(dec_val(s.take(i)) <= dec_val(s.take(i + 1)));
    } else {
        assert(s.take(i) == s);
    }
}

/// The decimal digits of `n`, most significant first.
pub open spec fn dec_digits(n: nat) -> Seq<char>
    decreases n,
{
    if n < 10 {
        seq![digit_char(n)]
    } else {
        dec_digits(n / 10).push(digit_char(n % 10))
    }
}

pub open spec fn digit_char(d: nat) -> char {
    if d == 0 {
        '0'
    } else if d == 1 {
        '1'
    } else if d == 2 {
        '2'
    } else if d == 3 {
        '3'
    } else if d == 4 {
        '4'
    } else if d == 5 {
        '5'
    } else if d == 6 {
        '6'
    } else if d == 7 {
        '7'
    } else if d == 8 {
        '8'
    } else {
        '9'
    }
}

fn digit_str(d: u64) -> (r: &'static str)
    requires
        d < 10,
    ensures
        r@ == seq![digit_char(d as nat)],
{
    proof {
        reveal_strlit("0");
        reveal_strlit("1");
        reveal_strlit("2");
        reveal_strlit("3");
        reveal_strlit("4");
        reveal_strlit("5");
        reveal_strlit("6");
        reveal_strlit("7");
        reveal_strlit("8");
        reveal_strlit("9");
    }
    match d {
        0 => "0",
        1 => "1",
        2 => "2",
        3 => "3",
        4 => "4",
        5 => "5",
        6 => "6",
        7 => "7",
        8 => "8",
        _ => {
            proof {
                assert(d == 9);
            }
            "9"
        },
    }
}

/// Formats `n` in decimal.
pub fn u64_to_dec(n: u64) -> (r: String)
    ensures
        r@ == dec_digits(n as nat),
    decreases n,
{
    if n < 10 {
        digit_str(n).to_owned()
    } else {
        let mut head = u64_to_dec(n / 10);
        head.append(digit_str(n % 10));
        proof {
            assert(dec_digits((n / 10) as nat).push(digit_char((n % 10) as nat)) =~= dec_digits(
                (n / 10) as nat,
            ) + seq![digit_char((n % 10) as nat)]);
        }
        head
    }
}

/// `n` in decimal, zero-padded on the left to two digits.
pub open spec fn spec_pad2(n: nat) -> Seq<char> {
    if n < 10 {
        seq!['0', digit_char(n)]
    } else {
        dec_digits(n)
    }
}

/// Formats `n` as two digits, as the standard zero-padded formatting does
/// for values under one hundred.
pub fn u64_pad2(n: u64) -> (r: String)
    requires
        n < 100,
    ensures
        r@ == spec_pad2(n as nat),
{
    if n < 10 {
        proof {
            reveal_strlit("0");
        }
        let mut out = "0".to_owned();
        out.append(digit_str(n));
        proof {
            assert(out@ =~= seq!['0', digit_char(n as nat)]);
        }
        out
    } else {
        proof {
            assert(dec_digits(n as nat) == dec_digits((n / 10) as nat).push(
                digit_char((n % 10) as nat),
            ));
        }
        u64_to_dec(n)
    }
}

/// Replaces every hyphen with an underscore.
pub fn replace_hyphens(s: &str) -> (r: String)
    ensures
        r@ == s@.map_values(
            |c: char|
                if c == '-' {
                    '_'
                } else {
                    c
                },
        ),
{
    let l = s.unicode_len();
    let mut out = String::new();
    let mut i: usize = 0;
    while i < l
        invariant
            i <= l,
            l == s@.len(),
            out@ == s@.take(i as int).map_values(
                |c: char|
                    if c == '-' {
                        '_'
                    } else {
                        c
                    },
            ),
        decreases l - i,
    {
        let c = s.get_char(i);
        if c == '-' {
            proof {
                reveal_strlit("_");
            }
            out.append("_");
        } else {
            let piece = s.substring_char(i, i + 1);
            out.append(piece);
            proof {
                assert(piece@ =~= seq![s@[i as int]]);
            }
        }
        proof {
            assert(out@ =~= s@.take(i + 1int).map_values(
                |c: char|
                    if c == '-' {
                        '_'
                    } else {
                        c
                    },
            ));
        }
        i = i + 1;
    }
    proof {
        assert(s@.take(l as int) == s@);
    }
    out
}

/// The characters the standard trim removes: the Unicode white-space set.
pub open spec fn is_ws(c: char) -> bool {
    ('\u{9}' <= c && c <= '\u{d}') || c == ' ' || c == '\u{85}' || c == '\u{a0}' || c
        == '\u{1680}' || ('\u{2000}' <= c && c <= '\u{200a}') || c == '\u{2028}' || c == '\u{2029}'
        || c == '\u{202f}' || c == '\u{205f}' || c == '\u{3000}'
}

/// Whether the standard trim would remove this character.
pub fn is_ws_char(c: char) -> (r: bool)
    ensures
        r == is_ws(c),
{
    ('\u{9}' <= c && c <= '\u{d}') || c == ' ' || c == '\u{85}' || c == '\u{a0}' || c
        == '\u{1680}' || ('\u{2000}' <= c && c <= '\u{200a}') || c == '\u{2028}' || c == '\u{2029}'
        || c == '\u{202f}' || c == '\u{205f}' || c == '\u{3000}'
}

/// The string with leading white space removed.
pub open spec fn trim_left(s: Seq<char>) -> Seq<char>
    decreases s.len(),
{
    if s.len() > 0 && is_ws(s[0]) {
        trim_left(s.drop_first())
    } else {
        s
    }
}

/// The string with trailing white space removed.
pub open spec fn trim_right(s: Seq<char>) -> Seq<char>
    decreases s.len(),
{
    if s.len() > 0 && is_ws(s.last()) {
        trim_right(s.drop_last())
    } else {
        s
    }
}

/// The string with leading and trailing white space removed.
pub open spec fn spec_trim(s: Seq<char>) -> Seq<char> {
    trim_right(trim_left(s))
}

proof fn lemma_trim_left_at(s: Seq<char>, a: int)
    requires
        0 <= a <= s.len(),
        forall|j: int| 0 <= j < a ==> is_ws(s[j]),
        a < s.len() ==> !is_ws(s[a]),
    ensures
        trim_left(s) == s.subrange(a, s.len() as int),
    decreases a,
{
    if a == 0 {
        if s.len() > 0 && is_ws(s[0]) {
            assert(false);
        }
        assert(s.subrange(0, s.len() as int) =~= s);
    } else {
        assert(is_ws(s[0]));
        let t = s.drop_first();
        assert(t =~= s.subrange(1, s.len() as int));
        assert forall|j: int| 0 <= j < a - 1 implies is_ws(t[j]) by {
            assert(t[j] == s[j + 1]);
        }
        if a - 1 < t.len() {
            assert(t[a - 1] == s[a]);
        }
        lemma_trim_left_at(t, a - 1);
        assert(t.subrange(a - 1, t.len() as int) =~= s.subrange(a, s.len() as int));
    }
}

proof fn lemma_trim_right_at(s: Seq<char>, b: int)
    requires
        0 <= b <= s.len(),
        forall|j: int| b <= j < s.len() ==> is_ws(s[j]),
        b > 0 ==> !is_ws(s[b - 1]),
    ensures
        trim_right(s) == s.subrange(0, b),
    decreases s.len() - b,
{
    if b == s.len() {
        if s.len() > 0 && is_ws(s.last()) {
            assert(false);
        }
        assert(s.subrange(0, b) =~= s);
    } else {
        assert(is_ws(s.last()));
        let t = s.drop_last();
        assert forall|j: int| b <= j < t.len() implies is_ws(t[j]) by {
            assert(t[j] == s[j]);
        }
        if b > 0 {
            assert(t[b - 1] == s[b - 1]);
        }
        lemma_trim_right_at(t, b);
        assert(t.subrange(0, b) =~= s.subrange(0, b));
    }
}

/// Removes leading and trailing white space, keeping the middle intact,
/// as the standard trim does.
pub fn trim_ws(s: &str) -> (r: String)
    ensures
        r@ == spec_trim(s@),
{
    let l = s.unicode_len();
    let mut a: usize = 0;
    while a < l && is_ws_char(s.get_char(a))
        invariant
            a <= l,
            l == s@.len(),
            forall|j: int| 0 <= j < a ==> is_ws(s@[j]),
        decreases l - a,
    {
        a = a + 1;
    }
    proof {
        lemma_trim_left_at(s@, a as int);
    }
    if a == l {
        let r = String::new();
        proof {
            assert(trim_left(s@) =~= Seq::<char>::empty());
            assert(trim_right(Seq::<char>::empty()) =~= Seq::<char>::empty());
        }
        return r;
    }
    let mut b: usize = l;
    while b > a && is_ws_char(s.get_char(b - 1))
        invariant
            a <= b <= l,
            l == s@.len(),
            forall|j: int| b <= j < s@.len() ==> is_ws(s@[j]),
        decreases b,
    {
        b = b - 1;
    }
    proof {
        assert(a < l && !is_ws(s@[a as int]));
        assert(b > a);
        assert(!is_ws(s@[b - 1]));
        let t = s@.subrange(a as int, l as int);
        assert forall|j: int| b - a <= j < t.len() implies is_ws(t[j]) by {
            assert(t[j] == s@[a + j]);
        }
        assert(t[b - a - 1] == s@[b - 1]);
        lemma_trim_right_at(t, b - a);
        assert(t.subrange(0, b - a) =~= s@.subrange(a as int, b as int));
    }
    let r = s.substring_char(a, b);
    r.to_owned()
}

} // verus!

verus! {

/// The position of the first occurrence of `sub` in `s` (meaningful when
/// there is one; see `lemma_first_match`).
pub open spec fn first_match(s: Seq<char>, sub: Seq<char>) -> int {
    choose|k: int| match_at(s, sub, k) && (forall|k2: int| 0 <= k2 < k ==> !match_at(s, sub, k2))
}

proof fn lemma_first_match_below(s: Seq<char>, sub: Seq<char>, k0: int)
    requires
        match_at(s, sub, k0),
    ensures
        exists|k: int|
            match_at(s, sub, k) && (forall|k2: int| 0 <= k2 < k ==> !match_at(s, sub, k2)),
    decreases k0,
{
    if exists|k2: int| 0 <= k2 < k0 && match_at(s, sub, k2) {
        let k2 = choose|k2: int| 0 <= k2 < k0 && match_at(s, sub, k2);
        lemma_first_match_below(s, sub, k2);
    } else {
        assert(match_at(s, sub, k0) && (forall|k2: int|
            0 <= k2 < k0 ==> !match_at(s, sub, k2)));
    }
}

/// When `sub` occurs at all, `first_match` names its first occurrence.
pub proof fn lemma_first_match(s: Seq<char>, sub: Seq<char>)
    requires
        has_substring(s, sub),
    ensures
        match_at(s, sub, first_match(s, sub)),
        forall|k2: int| 0 <= k2 < first_match(s, sub) ==> !match_at(s, sub, k2),
{
    let k0 = choose|k: int| match_at(s, sub, k);
    lemma_first_match_below(s, sub, k0);
}

/// A line with a trailing carriage return loses it.
pub open spec fn spec_strip_cr(l: Seq<char>) -> Seq<char> {
    if l.len() > 0 && l.last() == '\r' {
        l.drop_last()
    } else {
        l
    }
}

/// The lines of a string: the pieces between newlines, without a final
/// empty piece after a trailing newline, each with a trailing carriage
/// return removed.
pub open spec fn spec_lines(s: Seq<char>) -> Seq<Seq<char>> {
    let ps = spec_split(s, '\n');
    let ps2 = if ps.len() > 0 && ps.last().len() == 0 {
        ps.drop_last()
    } else {
        ps
    };
    ps2.map_values(|l: Seq<char>| spec_strip_cr(l))
}

/// Splits a string into its lines.
pub fn split_lines(s: &str) -> (r: Vec<String>)
    ensures
        r@.map_values(|p: String| p@) == spec_lines(s@),
{
    let mut ps = str_split_char(s, '\n');
    let ghost ps0 = ps@.map_values(|p: String| p@);
    if ps.len() > 0 {
        let lastlen = ps[ps.len() - 1].as_str().unicode_len();
        if lastlen == 0 {
            ps.pop();
            proof {
                assert(ps@.map_values(|p: String| p@) =~= ps0.drop_last());
            }
        }
    }
    let ghost ps2 = ps@.map_values(|p: String| p@);
    proof {
        let full = spec_split(s@, '\n');
        assert(full.len() > 0) by {
            reveal_with_fuel(spec_split, 1);
            if exists|k: int| 0 <= k < s@.len() && s@[k] == '\n' {
                lemma_first_occurrence(s@, '\n');
            }
        }
        assert(ps2 == if full.len() > 0 && full.last().len() == 0 {
            full.drop_last()
        } else {
            full
        });
    }
    let mut out: Vec<String> = Vec::new();
    let mut i: usize = 0;
    while i < ps.len()
        invariant
            i <= ps@.len(),
            ps@.map_values(|p: String| p@) == ps2,
            out@.map_values(|p: String| p@) =~= ps2.take(i as int).map_values(
                |l: Seq<char>| spec_strip_cr(l),
            ),
        decreases ps@.len() - i,
    {
        let ghost out_pre = out@;
        let piece = &ps[i];
        proof {
            assert(piece@ == ps2[i as int]);
        }
        let pl = piece.as_str().unicode_len();
        if pl > 0 && piece.as_str().get_char(pl - 1) == '\r' {
            let stripped = piece.as_str().substring_char(0, pl - 1);
            out.push(stripped.to_owned());
            proof {
                assert(stripped@ =~= ps2[i as int].drop_last());
                assert(out@.last()@ == spec_strip_cr(ps2[i as int]));
                assert(out@.drop_last() =~= out_pre);
            }
        } else {
            out.push(piece.clone());
            proof {
                assert(out@.last()@ == spec_strip_cr(ps2[i as int]));
                assert(out@.drop_last() =~= out_pre);
            }
        }
        proof {
            let f = |l: Seq<char>| spec_strip_cr(l);
            let g = |p: String| p@;
            assert(out_pre.len() == i) by {
                assert(out_pre.map_values(g).len() == i);
            }
            assert(out@.len() == i + 1);
            assert forall|j: int| 0 <= j < i + 1 implies out@.map_values(g)[j] == ps2.take(
                i + 1int,
            ).map_values(f)[j] by {
                if j < i {
                    assert(out@[j] == out@.drop_last()[j]);
                    assert(out@[j] == out_pre[j]);
                    assert(out_pre.map_values(g)[j] == ps2.take(i as int).map_values(f)[j]);
                    assert(ps2.take(i as int)[j] == ps2[j]);
                    assert(ps2.take(i + 1int)[j] == ps2[j]);
                } else {
                    assert(out@[j] == out@.last());
                    assert(ps2.take(i + 1int)[j] == ps2[i as int]);
                }
            }
            assert(out@.map_values(g) =~= ps2.take(i + 1int).map_values(f));
        }
        i = i + 1;
    }
    proof {
        assert(ps2.take(ps2.len() as int) == ps2);
        assert(out@.map_values(|p: String| p@) =~= spec_lines(s@));
    }
    out
}

} // verus!
