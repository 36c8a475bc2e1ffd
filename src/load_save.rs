//! The persisted map format: one record per line,
//! `<x> <y> <type> <rotation>`, fields separated by whitespace, e.g.
//! `+03 -12 Half 4`. Coordinates are written signed and zero-padded to at
//! least two digits.
use vstd::prelude::*;
use crate::hex::Hex;
use crate::store::{TileStore, map_of, lemma_map_of, lemma_map_of_sorted, hex_lt};
use crate::tile::{Tile, TileType, tile_of};

verus! {

/// Characters that separate fields: the Unicode `White_Space` characters.
pub open spec fn is_ws(c: char) -> bool {
    c == '\t' ||
        c == '\n' ||
        c == '\x0B' ||
        c == '\x0C' ||
        c == '\r' ||
        c == ' ' ||
        c == '\u{85}' ||
        c == '\u{A0}' ||
        c == '\u{1680}' ||
        c == '\u{2000}' ||
        c == '\u{2001}' ||
        c == '\u{2002}' ||
        c == '\u{2003}' ||
        c == '\u{2004}' ||
        c == '\u{2005}' ||
        c == '\u{2006}' ||
        c == '\u{2007}' ||
        c == '\u{2008}' ||
        c == '\u{2009}' ||
        c == '\u{200A}' ||
        c == '\u{2028}' ||
        c == '\u{2029}' ||
        c == '\u{202F}' ||
        c == '\u{205F}' ||
        c == '\u{3000}'
}

fn is_ws_char(c: char) -> (r: bool)
    ensures
        r == is_ws(c),
{
    match c {
        '\t' | '\n' | '\x0B' | '\x0C' | '\r' | ' ' | '\u{85}' | '\u{A0}' | '\u{1680}' | '\u{2000}' | '\u{2001}' | '\u{2002}' | '\u{2003}' | '\u{2004}' | '\u{2005}' | '\u{2006}' | '\u{2007}' | '\u{2008}' | '\u{2009}' | '\u{200A}' | '\u{2028}' | '\u{2029}' | '\u{202F}' | '\u{205F}' | '\u{3000}' => true,
        _ => false,
    }
}

/// Length of the word at the start of `s`.
pub open spec fn word_len(s: Seq<char>) -> nat
    decreases s.len(),
{
    if s.len() == 0 || is_ws(s[0]) {
        0
    } else {
        1 + word_len(s.drop_first())
    }
}

proof fn lemma_word_len_bound(s: Seq<char>)
    ensures
        word_len(s) <= s.len(),
        s.len() > 0 && !is_ws(s[0]) ==> word_len(s) >= 1,
    decreases s.len(),
{
    if s.len() > 0 && !is_ws(s[0]) {
        lemma_word_len_bound(s.drop_first());
    }
}

/// The whitespace-separated words of `s`, in order.
pub open spec fn tokens(s: Seq<char>) -> Seq<Seq<char>>
    decreases s.len(),
    via tokens_decreases
{
    if s.len() == 0 {
        Seq::empty()
    } else if is_ws(s[0]) {
        tokens(s.drop_first())
    } else {
        seq![s.take(word_len(s) as int)] + tokens(s.skip(word_len(s) as int))
    }
}

#[via_fn]
proof fn tokens_decreases(s: Seq<char>) {
    lemma_word_len_bound(s);
}

pub open spec fn digit_val(c: char) -> int {
    if c == '0' {
        0
    } else if c == '1' {
        1
    } else if c == '2' {
        2
    } else if c == '3' {
        3
    } else if c == '4' {
        4
    } else if c == '5' {
        5
    } else if c == '6' {
        6
    } else if c == '7' {
        7
    } else if c == '8' {
        8
    } else if c == '9' {
        9
    } else {
        -1
    }
}

pub open spec fn digit_char(d: int) -> char {
    if d == 0 {
        '0'
    } else if d == 1 {
        '1'
    } else if d == 2 {
        '2'
    } else if d == 3 {
        '3'
    } else if d == 4 {
        '4'
    } else if d == 5 {
        '5'
    } else if d == 6 {
        '6'
    } else if d == 7 {
        '7'
    } else if d == 8 {
        '8'
    } else {
        '9'
    }
}

/// A non-empty run of decimal digits.
pub open spec fn all_digits(d: Seq<char>) -> bool {
    d.len() > 0 && forall|i: int| 0 <= i < d.len() ==> digit_val(#[trigger] d[i]) >= 0
}

/// The number a run of decimal digits denotes.
pub open spec fn digits_value(d: Seq<char>) -> int
    decreases d.len(),
{
    if d.len() == 0 {
        0
    } else {
        digits_value(d.drop_last()) * 10 + digit_val(d.last())
    }
}

/// An integer token: optional `+` or `-`, then decimal digits.
pub open spec fn signed_value(t: Seq<char>) -> Option<int> {
    if t.len() > 0 && t[0] == '-' && all_digits(t.drop_first()) {
        Some(-digits_value(t.drop_first()))
    } else if t.len() > 0 && t[0] == '+' && all_digits(t.drop_first()) {
        Some(digits_value(t.drop_first()))
    } else if all_digits(t) {
        Some(digits_value(t))
    } else {
        None
    }
}

/// A non-negative integer token: optional `+`, then decimal digits.
pub open spec fn unsigned_value(t: Seq<char>) -> Option<int> {
    if t.len() > 0 && t[0] == '+' && all_digits(t.drop_first()) {
        Some(digits_value(t.drop_first()))
    } else if all_digits(t) {
        Some(digits_value(t))
    } else {
        None
    }
}

/// A token read as an `i32`.
pub open spec fn token_i32(t: Seq<char>) -> Option<i32> {
    match signed_value(t) {
        Some(v) => if i32::MIN <= v <= i32::MAX {
            Some(v as i32)
        } else {
            None
        },
        None => None,
    }
}

/// A token read as a `u8`.
pub open spec fn token_u8(t: Seq<char>) -> Option<u8> {
    match unsigned_value(t) {
        Some(v) => if v <= 255 {
            Some(v as u8)
        } else {
            None
        },
        None => None,
    }
}

proof fn lemma_digits_nonneg(d: Seq<char>)
    requires
        forall|i: int| 0 <= i < d.len() ==> digit_val(#[trigger] d[i]) >= 0,
    ensures
        digits_value(d) >= 0,
    decreases d.len(),
{
    if d.len() > 0 {
        lemma_digits_nonneg(d.drop_last());
    }
}

/// A longer prefix of a digit run denotes a number at least as large.
proof fn lemma_digits_prefix(d: Seq<char>, k: int)
    requires
        0 <= k <= d.len(),
        forall|i: int| 0 <= i < d.len() ==> digit_val(#[trigger] d[i]) >= 0,
    ensures
        digits_value(d.take(k)) <= digits_value(d),
    decreases d.len() - k,
{
    if k < d.len() {
        lemma_digits_prefix(d, k + 1);
        let p = d.take(k + 1);
        assert(p.drop_last() =~= d.take(k));
        assert forall|i: int| 0 <= i < k implies digit_val(#[trigger] d.take(k)[i]) >= 0 by {
            assert(d.take(k)[i] == d[i]);
        }
        lemma_digits_nonneg(d.take(k));
    } else {
        assert(d.take(k) =~= d);
    }
}

fn digit_of(c: char) -> (r: Option<u8>)
    ensures
        digit_val(c) >= 0 ==> r == Some(digit_val(c) as u8),
        digit_val(c) < 0 ==> r is None,
{
    match c {
        '0' => Some(0),
        '1' => Some(1),
        '2' => Some(2),
        '3' => Some(3),
        '4' => Some(4),
        '5' => Some(5),
        '6' => Some(6),
        '7' => Some(7),
        '8' => Some(8),
        '9' => Some(9),
        _ => None,
    }
}

/// Reads `t[start..]` as a run of digits whose value is at most `bound`.
fn parse_digits(t: &Vec<char>, start: usize, bound: i64) -> (r: Option<i64>)
    requires
        start <= t@.len(),
        0 <= bound <= 0x1_0000_0000,
    ensures
        r is Some <==> all_digits(t@.skip(start as int)) && digits_value(t@.skip(start as int)) <= bound,
        r is Some ==> r->Some_0 == digits_value(t@.skip(start as int)) && r->Some_0 >= 0,
{
    let ghost x = t@.skip(start as int);
    if start == t.len() {
        return None;
    }
    let mut acc: i64 = 0;
    let mut i: usize = start;
    while i < t.len()
        invariant
            start <= i <= t@.len(),
            x == t@.skip(start as int),
            0 <= bound <= 0x1_0000_0000,
            0 <= acc <= bound,
            acc == digits_value(x.take(i - start)),
            forall|j: int| 0 <= j < i - start ==> digit_val(#[trigger] x[j]) >= 0,
        decreases t@.len() - i,
    {
        let ghost k = i - start;
        assert(x[k] == t@[i as int]);
        match digit_of(t[i]) {
            None => {
                return None;
            },
            Some(d) => {
                assert(x.take(k + 1).drop_last() =~= x.take(k));
                let next = acc * 10 + d as i64;
                assert(next == digits_value(x.take(k + 1)));
                if next > bound {
                    proof {
                        if all_digits(x) {
                            lemma_digits_prefix(x, k + 1);
                        }
                    }
                    return None;
                }
                acc = next;
            },
        }
        i = i + 1;
    }
    assert(x.take(x.len() as int) =~= x);
    proof {
        lemma_digits_nonneg(x);
    }
    Some(acc)
}

/// Reads a token as an `i32`.
pub(crate) fn parse_i32(t: &Vec<char>) -> (r: Option<i32>)
    ensures
        r == token_i32(t@),
{
    if t.len() > 0 && t[0] == '-' {
        assert(t@.skip(1) =~= t@.drop_first());
        assert(digit_val(t@[0]) < 0);
        assert(!all_digits(t@));
        match parse_digits(t, 1, 0x8000_0000) {
            Some(v) => Some((-v) as i32),
            None => None,
        }
    } else if t.len() > 0 && t[0] == '+' {
        assert(t@.skip(1) =~= t@.drop_first());
        assert(digit_val(t@[0]) < 0);
        assert(!all_digits(t@));
        match parse_digits(t, 1, 0x7fff_ffff) {
            Some(v) => Some(v as i32),
            None => None,
        }
    } else {
        assert(t@.skip(0) =~= t@);
        match parse_digits(t, 0, 0x7fff_ffff) {
            Some(v) => Some(v as i32),
            None => None,
        }
    }
}

/// Reads a token as a `u8`.
pub(crate) fn parse_u8(t: &Vec<char>) -> (r: Option<u8>)
    ensures
        r == token_u8(t@),
{
    if t.len() > 0 && t[0] == '+' {
        assert(t@.skip(1) =~= t@.drop_first());
        assert(digit_val(t@[0]) < 0);
        assert(!all_digits(t@));
        match parse_digits(t, 1, 255) {
            Some(v) => Some(v as u8),
            None => None,
        }
    } else {
        assert(t@.skip(0) =~= t@);
        match parse_digits(t, 0, 255) {
            Some(v) => Some(v as u8),
            None => None,
        }
    }
}

/// A word of `x` of length `k` ends at `k`.
proof fn lemma_word_len_exact(x: Seq<char>, k: int)
    requires
        0 <= k <= x.len(),
        forall|m: int| 0 <= m < k ==> !is_ws(#[trigger] x[m]),
        k == x.len() || is_ws(x[k]),
    ensures
        word_len(x) == k,
    decreases k,
{
    if k > 0 {
        let y = x.drop_first();
        assert forall|m: int| 0 <= m < k - 1 implies !is_ws(#[trigger] y[m]) by {
            assert(y[m] == x[m + 1]);
        }
        if k < x.len() {
            assert(y[k - 1] == x[k]);
        }
        lemma_word_len_exact(y, k - 1);
    }
}

/// The characters of `s`.
pub(crate) fn chars_of(s: &str) -> (r: Vec<char>)
    ensures
        r@ == s@,
{
    let n = s.unicode_len();
    let mut out: Vec<char> = Vec::new();
    let mut i: usize = 0;
    while i < n
        invariant
            n == s@.len(),
            i <= n,
            out@ == s@.take(i as int),
        decreases n - i,
    {
        out.push(s.get_char(i));
        i = i + 1;
        assert(out@ =~= s@.take(i as int));
    }
    assert(s@.take(n as int) =~= s@);
    out
}

pub open spec fn token_views(ts: Seq<Vec<char>>) -> Seq<Seq<char>> {
    ts.map_values(|t: Vec<char>| t@)
}

/// Splits `c` into its whitespace-separated words.
pub(crate) fn split_tokens(c: &Vec<char>) -> (r: Vec<Vec<char>>)
    ensures
        token_views(r@) == tokens(c@),
{
    let mut out: Vec<Vec<char>> = Vec::new();
    let mut i: usize = 0;
    assert(c@.skip(0) =~= c@);
    while i < c.len()
        invariant
            i <= c@.len(),
            tokens(c@) == token_views(out@) + tokens(c@.skip(i as int)),
        decreases c@.len() - i,
    {
        let ghost rest = c@.skip(i as int);
        if is_ws_char(c[i]) {
            assert(rest[0] == c@[i as int]);
            assert(rest.drop_first() =~= c@.skip(i + 1));
            i = i + 1;
        } else {
            let mut word: Vec<char> = Vec::new();
            let mut j: usize = i;
            while j < c.len() && !is_ws_char(c[j])
                invariant
                    i <= j <= c@.len(),
                    word@ == c@.subrange(i as int, j as int),
                    forall|m: int| i <= m < j ==> !is_ws(#[trigger] c@[m]),
                decreases c@.len() - j,
            {
                word.push(c[j]);
                j = j + 1;
                assert(word@ =~= c@.subrange(i as int, j as int));
            }
            proof {
                assert(rest[0] == c@[i as int]);
                assert forall|m: int| 0 <= m < j - i implies !is_ws(#[trigger] rest[m]) by {
                    assert(rest[m] == c@[i + m]);
                }
                if j < c@.len() {
                    assert(rest[j - i] == c@[j as int]);
                }
                lemma_word_len_exact(rest, j - i);
                assert(rest.take(j - i) =~= word@);
                assert(rest.skip(j - i) =~= c@.skip(j as int));
            }
            let ghost before = out@;
            out.push(word);
            proof {
                assert(token_views(out@) =~= token_views(before).push(word@));
                assert(token_views(out@) + tokens(c@.skip(j as int)) =~= token_views(before) + (seq![word@] + tokens(c@.skip(j as int))));
            }
            i = j;
        }
    }
    assert(tokens(c@.skip(i as int)) =~= Seq::<Seq<char>>::empty());
    assert(token_views(out@) + Seq::<Seq<char>>::empty() =~= token_views(out@));
    out
}

/// The fields of a record, in order.
#[derive(Debug, Clone, Copy, PartialEq, Eq, Structural)]
pub enum Field {
    X,
    Y,
    TileType,
    Rotation,
}

/// Why a record could not be read.
#[derive(Debug, Clone, Copy, PartialEq, Eq, Structural)]
pub enum FieldError {
    /// The line ends before the field.
    Missing(Field),
    /// The field's word is not a value of its type.
    Invalid(Field),
}

/// Why a map could not be loaded: the first bad record, by 1-based line
/// number.
#[derive(Debug, Clone, Copy, PartialEq, Eq, Structural)]
pub struct LoadError {
    pub line: usize,
    pub error: FieldError,
}

/// The name a shape is written with.
pub open spec fn kind_name(k: TileType) -> Seq<char> {
    match k {
        TileType::Empty => seq!['E', 'm', 'p', 't', 'y'],
        TileType::Small => seq!['S', 'm', 'a', 'l', 'l'],
        TileType::Half => seq!['H', 'a', 'l', 'f'],
        TileType::Large => seq!['L', 'a', 'r', 'g', 'e'],
        TileType::Full => seq!['F', 'u', 'l', 'l'],
    }
}

/// The shape a word names, if any.
pub open spec fn type_of_name(t: Seq<char>) -> Option<TileType> {
    if t == kind_name(TileType::Empty) {
        Some(TileType::Empty)
    } else if t == kind_name(TileType::Small) {
        Some(TileType::Small)
    } else if t == kind_name(TileType::Half) {
        Some(TileType::Half)
    } else if t == kind_name(TileType::Large) {
        Some(TileType::Large)
    } else if t == kind_name(TileType::Full) {
        Some(TileType::Full)
    } else {
        None
    }
}

/// What reading one line gives: its first four words as `x`, `y`, shape and
/// rotation (taken modulo 6), or the first field that is missing or invalid.
/// Words after the fourth are ignored.
pub open spec fn parse_record(s: Seq<char>) -> Result<(Hex, Tile), FieldError> {
    let t = tokens(s);
    if t.len() < 1 {
        Err(FieldError::Missing(Field::X))
    } else if token_i32(t[0]) is None {
        Err(FieldError::Invalid(Field::X))
    } else if t.len() < 2 {
        Err(FieldError::Missing(Field::Y))
    } else if token_i32(t[1]) is None {
        Err(FieldError::Invalid(Field::Y))
    } else if t.len() < 3 {
        Err(FieldError::Missing(Field::TileType))
    } else if type_of_name(t[2]) is None {
        Err(FieldError::Invalid(Field::TileType))
    } else if t.len() < 4 {
        Err(FieldError::Missing(Field::Rotation))
    } else if token_u8(t[3]) is None {
        Err(FieldError::Invalid(Field::Rotation))
    } else {
        Ok(
            (
                Hex { x: token_i32(t[0])->Some_0, y: token_i32(t[1])->Some_0 },
                tile_of(type_of_name(t[2])->Some_0, token_u8(t[3])->Some_0 as int),
            ),
        )
    }
}

pub(crate) fn same_chars(a: &Vec<char>, b: &[char]) -> (r: bool)
    ensures
        r == (a@ == b@),
{
    if a.len() != b.len() {
        return false;
    }
    let mut i: usize = 0;
    while i < a.len()
        invariant
            a@.len() == b@.len(),
            i <= a@.len(),
            forall|j: int| 0 <= j < i ==> a@[j] == b@[j],
        decreases a@.len() - i,
    {
        if a[i] != b[i] {
            return false;
        }
        i = i + 1;
    }
    assert(a@ =~= b@);
    true
}

/// Reads a shape name.
fn parse_type(t: &Vec<char>) -> (r: Option<TileType>)
    ensures
        r == type_of_name(t@),
{
    let empty = ['E', 'm', 'p', 't', 'y'];
    let small = ['S', 'm', 'a', 'l', 'l'];
    let half = ['H', 'a', 'l', 'f'];
    let large = ['L', 'a', 'r', 'g', 'e'];
    let full = ['F', 'u', 'l', 'l'];
    assert(empty@ =~= kind_name(TileType::Empty));
    assert(small@ =~= kind_name(TileType::Small));
    assert(half@ =~= kind_name(TileType::Half));
    assert(large@ =~= kind_name(TileType::Large));
    assert(full@ =~= kind_name(TileType::Full));
    if same_chars(t, &empty) {
        Some(TileType::Empty)
    } else if same_chars(t, &small) {
        Some(TileType::Small)
    } else if same_chars(t, &half) {
        Some(TileType::Half)
    } else if same_chars(t, &large) {
        Some(TileType::Large)
    } else if same_chars(t, &full) {
        Some(TileType::Full)
    } else {
        None
    }
}

/// Reads one record line.
pub fn parse_line(line: &str) -> (r: Result<(Hex, Tile), FieldError>)
    ensures
        r == parse_record(line@),
        r is Ok ==> r->Ok_0.1.wf(),
{
    let chars = chars_of(line);
    let t = split_tokens(&chars);
    let ghost tv = token_views(t@);
    assert(tv == tokens(line@));
    if t.len() < 1 {
        return Err(FieldError::Missing(Field::X));
    }
    assert(tv[0] == t@[0]@);
    let x = match parse_i32(&t[0]) {
        Some(v) => v,
        None => {
            return Err(FieldError::Invalid(Field::X));
        },
    };
    if t.len() < 2 {
        return Err(FieldError::Missing(Field::Y));
    }
    assert(tv[1] == t@[1]@);
    let y = match parse_i32(&t[1]) {
        Some(v) => v,
        None => {
            return Err(FieldError::Invalid(Field::Y));
        },
    };
    if t.len() < 3 {
        return Err(FieldError::Missing(Field::TileType));
    }
    assert(tv[2] == t@[2]@);
    let kind = match parse_type(&t[2]) {
        Some(k) => k,
        None => {
            return Err(FieldError::Invalid(Field::TileType));
        },
    };
    if t.len() < 4 {
        return Err(FieldError::Missing(Field::Rotation));
    }
    assert(tv[3] == t@[3]@);
    let rotation = match parse_u8(&t[3]) {
        Some(v) => v,
        None => {
            return Err(FieldError::Invalid(Field::Rotation));
        },
    };
    Ok((Hex { x, y }, Tile::new(kind, rotation)))
}

/// The decimal digits of `n`, most significant first.
pub open spec fn digits_of(n: nat) -> Seq<char>
    decreases n,
{
    if n < 10 {
        seq![digit_char(n as int)]
    } else {
        digits_of(n / 10).push(digit_char((n % 10) as int))
    }
}

/// The digits of a magnitude, zero-padded to at least two.
pub open spec fn magnitude_text(n: nat) -> Seq<char> {
    if n < 10 {
        seq!['0', digit_char(n as int)]
    } else {
        digits_of(n)
    }
}

/// An integer as written in a record: always signed, and at least three
/// characters wide (`+00`, `+05`, `-12`, `-123`).
pub open spec fn int_text(v: int) -> Seq<char> {
    if v < 0 {
        seq!['-'] + magnitude_text((-v) as nat)
    } else {
        seq!['+'] + magnitude_text(v as nat)
    }
}

/// The line that records tile `t` at `h`.
pub open spec fn record_text(h: Hex, t: Tile) -> Seq<char> {
    int_text(h.x as int) + seq![' '] + int_text(h.y as int) + seq![' '] + kind_name(t.tile_type)
        + seq![' '] + digits_of(t.rotation as nat)
}

fn digit_str(d: u32) -> (r: &'static str)
    requires
        d < 10,
    ensures
        r@ == seq![digit_char(d as int)],
{
    proof {
        reveal_strlit("0");
        reveal_strlit("1");
        reveal_strlit("2");
        reveal_strlit("3");
        reveal_strlit("4");
        reveal_strlit("5");
        reveal_strlit("6");
        reveal_strlit("7");
        reveal_strlit("8");
        reveal_strlit("9");
    }
    let r = if d == 0 {
        "0"
    } else if d == 1 {
        "1"
    } else if d == 2 {
        "2"
    } else if d == 3 {
        "3"
    } else if d == 4 {
        "4"
    } else if d == 5 {
        "5"
    } else if d == 6 {
        "6"
    } else if d == 7 {
        "7"
    } else if d == 8 {
        "8"
    } else {
        "9"
    };
    assert(r@ =~= seq![digit_char(d as int)]);
    r
}

fn push_digits(out: &mut String, n: u32)
    ensures
        final(out)@ == old(out)@ + digits_of(n as nat),
    decreases n,
{
    if n >= 10 {
        push_digits(out, n / 10);
    }
    out.append(digit_str(n % 10));
    assert(final(out)@ =~= old(out)@ + digits_of(n as nat)) by {
        if n >= 10 {
            assert(digits_of(n as nat) == digits_of((n / 10) as nat).push(digit_char((n % 10) as int)));
        }
    }
}

fn kind_str(k: TileType) -> (r: &'static str)
    ensures
        r@ == kind_name(k),
{
    proof {
        reveal_strlit("Empty");
        reveal_strlit("Small");
        reveal_strlit("Half");
        reveal_strlit("Large");
        reveal_strlit("Full");
    }
    let r = match k {
        TileType::Empty => "Empty",
        TileType::Small => "Small",
        TileType::Half => "Half",
        TileType::Large => "Large",
        TileType::Full => "Full",
    };
    assert(r@ =~= kind_name(k));
    r
}

fn push_int(out: &mut String, v: i32)
    ensures
        final(out)@ == old(out)@ + int_text(v as int),
{
    proof {
        reveal_strlit("-");
        reveal_strlit("+");
        reveal_strlit("0");
    }
    let mag: u32 = if v < 0 {
        out.append("-");
        (-(v as i64)) as u32
    } else {
        out.append("+");
        v as u32
    };
    if mag < 10 {
        out.append("0");
    }
    push_digits(out, mag);
    assert(final(out)@ =~= old(out)@ + int_text(v as int));
}

/// Writes the record line of tile `t` at `h`.
pub fn format_line(h: Hex, t: Tile) -> (r: String)
    ensures
        r@ == record_text(h, t),
{
    proof {
        reveal_strlit(" ");
    }
    let mut out = String::new();
    push_int(&mut out, h.x);
    out.append(" ");
    push_int(&mut out, h.y);
    out.append(" ");
    out.append(kind_str(t.tile_type));
    out.append(" ");
    push_digits(&mut out, t.rotation as u32);
    assert(out@ =~= record_text(h, t));
    out
}

proof fn lemma_digits_round_trip(n: nat)
    ensures
        all_digits(digits_of(n)),
        digits_value(digits_of(n)) == n,
        forall|i: int| 0 <= i < digits_of(n).len() ==> !is_ws(#[trigger] digits_of(n)[i]),
    decreases n,
{
    let d = digits_of(n);
    if n >= 10 {
        lemma_digits_round_trip(n / 10);
        let p = digits_of(n / 10);
        assert(d.drop_last() =~= p);
        assert forall|i: int| 0 <= i < d.len() implies digit_val(#[trigger] d[i]) >= 0 && !is_ws(d[i]) by {
            if i < p.len() {
                assert(d[i] == p[i]);
            }
        }
        assert((n / 10) * 10 + n % 10 == n) by (nonlinear_arith);
        assert(d.last() == digit_char((n % 10) as int));
        assert(digit_val(digit_char((n % 10) as int)) == n % 10);
        assert(digits_value(d) == digits_value(p) * 10 + digit_val(d.last()));
    } else {
        assert(d.drop_last() =~= Seq::<char>::empty());
        assert(d.last() == digit_char(n as int));
        assert(digit_val(digit_char(n as int)) == n);
        assert(digits_value(d) == digits_value(d.drop_last()) * 10 + digit_val(d.last()));
    }
}

/// A word that is followed by whitespace or by nothing is the first token.
proof fn lemma_tokens_word(w: Seq<char>, rest: Seq<char>)
    requires
        w.len() > 0,
        forall|i: int| 0 <= i < w.len() ==> !is_ws(#[trigger] w[i]),
        rest.len() == 0 || is_ws(rest[0]),
    ensures
        tokens(w + rest) == seq![w] + tokens(rest),
{
    let s = w + rest;
    assert forall|m: int| 0 <= m < w.len() implies !is_ws(#[trigger] s[m]) by {
        assert(s[m] == w[m]);
    }
    if rest.len() > 0 {
        assert(s[w.len() as int] == rest[0]);
    }
    lemma_word_len_exact(s, w.len() as int);
    assert(s[0] == w[0]);
    assert(s.take(w.len() as int) =~= w);
    assert(s.skip(w.len() as int) =~= rest);
}

proof fn lemma_tokens_space(rest: Seq<char>)
    ensures
        tokens(seq![' '] + rest) == tokens(rest),
{
    let s = seq![' '] + rest;
    assert(s[0] == ' ');
    assert(s.drop_first() =~= rest);
}

proof fn lemma_int_text(v: int)
    requires
        i32::MIN <= v <= i32::MAX,
    ensures
        token_i32(int_text(v)) == Some(v as i32),
        int_text(v).len() > 0,
        forall|i: int| 0 <= i < int_text(v).len() ==> !is_ws(#[trigger] int_text(v)[i]),
{
    let t = int_text(v);
    let m: nat = if v < 0 { (-v) as nat } else { v as nat };
    lemma_magnitude_round_trip(m);
    assert(t.drop_first() =~= magnitude_text(m));
    assert forall|i: int| 0 <= i < t.len() implies !is_ws(#[trigger] t[i]) by {
        if i > 0 {
            assert(t[i] == magnitude_text(m)[i - 1]);
        }
    }
}

proof fn lemma_magnitude_round_trip(n: nat)
    ensures
        all_digits(magnitude_text(n)),
        digits_value(magnitude_text(n)) == n,
        forall|i: int| 0 <= i < magnitude_text(n).len() ==> !is_ws(#[trigger] magnitude_text(n)[i]),
{
    lemma_digits_round_trip(n);
    if n < 10 {
        let d = magnitude_text(n);
        let z = seq!['0'];
        assert(d.drop_last() =~= z);
        assert(z.drop_last() =~= Seq::<char>::empty());
        assert(digits_value(Seq::<char>::empty()) == 0);
        assert(z.last() == '0');
        assert(digits_value(z) == digits_value(z.drop_last()) * 10 + digit_val(z.last()));
        assert(digits_value(z) == 0);
        assert(d.last() == digit_char(n as int));
        assert(digit_val(digit_char(n as int)) == n);
        assert(digits_value(d) == digits_value(z) * 10 + digit_val(d.last()));
        assert(digit_val(d[0]) >= 0 && digit_val(d[1]) >= 0);
    }
}

proof fn lemma_kind_name(k: TileType)
    ensures
        type_of_name(kind_name(k)) == Some(k),
        kind_name(k).len() > 0,
        forall|i: int| 0 <= i < kind_name(k).len() ==> !is_ws(#[trigger] kind_name(k)[i]),
{
    let e = kind_name(TileType::Empty);
    let sm = kind_name(TileType::Small);
    let h = kind_name(TileType::Half);
    let l = kind_name(TileType::Large);
    let f = kind_name(TileType::Full);
    assert(e[0] == 'E' && sm[0] == 'S' && h[0] == 'H' && l[0] == 'L' && f[0] == 'F');
    assert(e != sm && e != h && e != l && e != f);
    assert(sm != h && sm != l && sm != f);
    assert(h != l && h != f);
    assert(l != f);
}

/// Reading the line written for a valid tile gives back that coordinate and
/// tile.
pub proof fn lemma_record_round_trip(h: Hex, t: Tile)
    requires
        t.wf(),
    ensures
        parse_record(record_text(h, t)) == Ok::<(Hex, Tile), FieldError>((h, t)),
{
    let a = int_text(h.x as int);
    let b = int_text(h.y as int);
    let c = kind_name(t.tile_type);
    let d = digits_of(t.rotation as nat);
    let sp = seq![' '];
    lemma_int_text(h.x as int);
    lemma_int_text(h.y as int);
    lemma_kind_name(t.tile_type);
    lemma_digits_round_trip(t.rotation as nat);
    assert(record_text(h, t) =~= a + (sp + (b + (sp + (c + (sp + d))))));
    lemma_tokens_word(d, Seq::empty());
    assert(d + Seq::<char>::empty() =~= d);
    assert(tokens(Seq::<char>::empty()) =~= Seq::<Seq<char>>::empty());
    lemma_tokens_space(d);
    lemma_tokens_word(c, sp + d);
    lemma_tokens_space(c + (sp + d));
    lemma_tokens_word(b, sp + (c + (sp + d)));
    lemma_tokens_space(b + (sp + (c + (sp + d))));
    lemma_tokens_word(a, sp + (b + (sp + (c + (sp + d)))));
    let toks = tokens(record_text(h, t));
    assert(toks =~= seq![a, b, c, d]);
    assert(d[0] != '+') by {
        assert(digit_val(d[0]) >= 0);
    }
    assert(token_u8(d) == Some(t.rotation));
}

/// The lines saving the records writes, one per record, in order.
pub open spec fn saved_lines(items: Seq<(Hex, Tile)>) -> Seq<Seq<char>> {
    items.map_values(|e: (Hex, Tile)| record_text(e.0, e.1))
}

/// What loading lines gives: the map built by inserting each record in
/// order, or the error of the first line that is not a record.
pub open spec fn load_records(ls: Seq<Seq<char>>) -> Result<Map<Hex, Tile>, LoadError>
    decreases ls.len(),
{
    if ls.len() == 0 {
        Ok(Map::empty())
    } else {
        match load_records(ls.drop_last()) {
            Err(e) => Err(e),
            Ok(m) => match parse_record(ls.last()) {
                Err(f) => Err(LoadError { line: ls.len() as usize, error: f }),
                Ok(r) => Ok(m.insert(r.0, r.1)),
            },
        }
    }
}

pub open spec fn line_views(lines: Seq<String>) -> Seq<Seq<char>> {
    lines.map_values(|l: String| l@)
}

/// The record lines of a store, sorted by coordinate.
pub fn save_lines(store: &TileStore) -> (r: Vec<String>)
    ensures
        line_views(r@) == saved_lines(store.items()),
{
    let recs = store.records();
    let mut out: Vec<String> = Vec::new();
    let mut i: usize = 0;
    while i < recs.len()
        invariant
            i <= recs@.len(),
            recs@ == store.items(),
            line_views(out@) == saved_lines(recs@.take(i as int)),
        decreases recs@.len() - i,
    {
        let (h, t) = recs[i];
        let line = format_line(h, t);
        let ghost before = out@;
        out.push(line);
        i = i + 1;
        assert(line_views(out@) =~= saved_lines(recs@.take(i as int))) by {
            assert(line_views(out@) =~= line_views(before).push(line@));
            assert(recs@.take(i as int).drop_last() =~= recs@.take(i - 1));
        }
    }
    assert(recs@.take(recs@.len() as int) =~= recs@);
    out
}

/// Loads a map from its record lines.
pub fn load_lines(lines: &Vec<String>) -> (r: Result<TileStore, LoadError>)
    ensures
        match r {
            Ok(s) => s.wf() && load_records(line_views(lines@)) == Ok::<Map<Hex, Tile>, LoadError>(s@),
            Err(e) => load_records(line_views(lines@)) == Err::<Map<Hex, Tile>, LoadError>(e),
        },
{
    let mut store = TileStore::new();
    let mut i: usize = 0;
    while i < lines.len()
        invariant
            i <= lines@.len(),
            store.wf(),
            load_records(line_views(lines@).take(i as int)) == Ok::<Map<Hex, Tile>, LoadError>(store@),
        decreases lines@.len() - i,
    {
        let ghost prefix = line_views(lines@).take(i + 1);
        assert(prefix.drop_last() =~= line_views(lines@).take(i as int));
        assert(prefix.last() == lines@[i as int]@);
        match parse_line(lines[i].as_str()) {
            Err(f) => {
                proof {
                    lemma_load_prefix_err(line_views(lines@), i + 1);
                }
                return Err(LoadError { line: i + 1, error: f });
            },
            Ok((h, t)) => {
                store.insert(h, t);
            },
        }
        i = i + 1;
    }
    assert(line_views(lines@).take(lines@.len() as int) =~= line_views(lines@));
    Ok(store)
}

/// An error on a prefix of the lines is the error of all of them.
proof fn lemma_load_prefix_err(ls: Seq<Seq<char>>, n: int)
    requires
        0 <= n <= ls.len(),
        load_records(ls.take(n)) is Err,
    ensures
        load_records(ls) == load_records(ls.take(n)),
    decreases ls.len() - n,
{
    if n < ls.len() {
        assert(ls.take(n + 1).drop_last() =~= ls.take(n));
        lemma_load_prefix_err(ls, n + 1);
    } else {
        assert(ls.take(n) =~= ls);
    }
}

proof fn lemma_load_saved(items: Seq<(Hex, Tile)>)
    requires
        forall|i: int| 0 <= i < items.len() ==> (#[trigger] items[i]).1.wf(),
    ensures
        load_records(saved_lines(items)) == Ok::<Map<Hex, Tile>, LoadError>(map_of(items)),
    decreases items.len(),
{
    if items.len() > 0 {
        let p = items.drop_last();
        assert(saved_lines(items).drop_last() =~= saved_lines(p));
        assert forall|i: int| 0 <= i < p.len() implies (#[trigger] p[i]).1.wf() by {
            assert(p[i] == items[i]);
        }
        lemma_load_saved(p);
        let e = items.last();
        assert(items[items.len() - 1].1.wf());
        lemma_record_round_trip(e.0, e.1);
    } else {
        assert(saved_lines(items) =~= Seq::<Seq<char>>::empty());
    }
}

/// Loading the lines a store saves gives back exactly the store's map.
pub proof fn lemma_save_load_round_trip(store: TileStore)
    requires
        store.wf(),
    ensures
        load_records(saved_lines(store.items())) == Ok::<Map<Hex, Tile>, LoadError>(store@),
{
    lemma_load_saved(store.items());
}

/// The order the records are written in does not matter: the store's
/// records, written in any order, each once, load to the store's map.
pub proof fn lemma_save_load_any_order(store: TileStore, order: Seq<(Hex, Tile)>)
    requires
        store.wf(),
        order.no_duplicates(),
        forall|e: (Hex, Tile)| #[trigger] order.contains(e) <==> store.items().contains(e),
    ensures
        load_records(saved_lines(order)) == Ok::<Map<Hex, Tile>, LoadError>(store@),
{
    let items = store.items();
    lemma_map_of_sorted(items);
    lemma_map_of(order);
    assert forall|i: int| 0 <= i < order.len() implies (#[trigger] order[i]).1.wf() by {
        assert(order.contains(order[i]));
        let j = choose|j: int| 0 <= j < items.len() && items[j] == order[i];
    }
    lemma_load_saved(order);
    // Coordinates are unique in `order`, as they are in the store's records.
    assert forall|i: int, k: int| 0 <= i < order.len() && 0 <= k < order.len() && i != k
        implies order[i].0 != order[k].0 by {
        assert(order.contains(order[i]));
        assert(order.contains(order[k]));
        let a = choose|a: int| 0 <= a < items.len() && items[a] == order[i];
        let b = choose|b: int| 0 <= b < items.len() && items[b] == order[k];
        if order[i].0 == order[k].0 {
            if a < b {
                assert(hex_lt(items[a].0, items[b].0));
            } else if b < a {
                assert(hex_lt(items[b].0, items[a].0));
            }
        }
    }
    let m = map_of(order);
    assert forall|h: Hex| #[trigger] m.contains_key(h) <==> store@.contains_key(h) by {
        if m.contains_key(h) {
            let i = choose|i: int| 0 <= i < order.len() && order[i].0 == h;
            assert(order.contains(order[i]));
            let a = choose|a: int| 0 <= a < items.len() && items[a] == order[i];
        }
        if store@.contains_key(h) {
            let a = choose|a: int| 0 <= a < items.len() && items[a].0 == h;
            assert(items.contains(items[a]));
            assert(order.contains(items[a]));
            let i = choose|i: int| 0 <= i < order.len() && order[i] == items[a];
            assert(order[i].0 == h);
        }
    }
    assert forall|h: Hex| #[trigger] m.contains_key(h) implies m[h] == store@[h] by {
        let i = choose|i: int| 0 <= i < order.len() && order[i].0 == h;
        assert forall|k: int| i < k < order.len() implies order[k].0 != order[i].0 by {}
        assert(m[order[i].0] == order[i].1);
        assert(order.contains(order[i]));
        let a = choose|a: int| 0 <= a < items.len() && items[a] == order[i];
        assert(store@[items[a].0] == items[a].1);
    }
    assert(m =~= store@);
}

} // verus!
