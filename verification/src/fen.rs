//! Decoding a Forsyth–Edwards record into a board value.
//!
//! A record is space-separated fields: piece placement (ranks from the top,
//! separated by `/`), side to move, castling rights, en-passant target, and an
//! optional halfmove clock. Decoding either returns a board satisfying the
//! board invariants or reports the record as invalid.

use vstd::prelude::*;
use vstd::string::StrSliceExecFns;
use vstd::string::StringExecFns;
use crate::board::Board;

verus! {

/// The error a malformed record produces; it carries the offending text.
#[derive(Debug)]
pub struct InvalidFenError {
    fen: String,
}

impl View for InvalidFenError {
    type V = Seq<char>;

    closed spec fn view(&self) -> Seq<char> {
        self.fen@
    }
}

impl InvalidFenError {
    /// Wraps the offending record text.
    pub fn new(fen: &str) -> (e: InvalidFenError)
        ensures
            e@ == fen@,
    {
        InvalidFenError { fen: String::from_str(fen) }
    }
}

/// The whitespace characters stripped from the ends of a record.
pub open spec fn ws(c: char) -> bool {
    c == ' ' || c == '\t' || c == '\n' || c == '\r'
}

/// `s` with leading whitespace removed.
pub open spec fn trim_front(s: Seq<char>) -> Seq<char>
    decreases s.len(),
{
    if s.len() > 0 && ws(s[0]) {
        trim_front(s.drop_first())
    } else {
        s
    }
}

/// `s` with trailing whitespace removed.
pub open spec fn trim_back(s: Seq<char>) -> Seq<char>
    decreases s.len(),
{
    if s.len() > 0 && ws(s[s.len() - 1]) {
        trim_back(s.take(s.len() - 1))
    } else {
        s
    }
}

/// `s` with whitespace removed from both ends.
pub open spec fn spec_trim(s: Seq<char>) -> Seq<char> {
    trim_back(trim_front(s))
}

/// The length of the longest prefix of `s` free of `c`: the index of the
/// first `c`, or the length of `s` when there is none.
pub open spec fn first_at(s: Seq<char>, c: char) -> nat
    decreases s.len(),
{
    if s.len() == 0 {
        0
    } else if s[0] == c {
        0
    } else {
        1 + first_at(s.drop_first(), c)
    }
}

/// `s` divided at every occurrence of `c`: one piece more than there are
/// occurrences, in order, separators dropped, empty pieces kept.
pub open spec fn spec_split(s: Seq<char>, c: char) -> Seq<Seq<char>>
    decreases s.len(),
{
    if first_at(s, c) >= s.len() {
        seq![s]
    } else {
        seq![s.take(first_at(s, c) as int)] + spec_split(
            s.skip(first_at(s, c) as int + 1),
            c,
        )
    }
}

/// The `k`-th space-separated field of a record, if it has that many.
pub open spec fn spec_field(s: Seq<char>, k: int) -> Option<Seq<char>> {
    if 0 <= k < spec_split(s, ' ').len() {
        Some(spec_split(s, ' ')[k])
    } else {
        None
    }
}

/// A prefix free of `c` and then `c` (or the end) pins down `first_at`.
proof fn lemma_first_at_is(s: Seq<char>, c: char, d: int)
    requires
        0 <= d <= s.len(),
        forall|j: int| 0 <= j < d ==> s[j] != c,
        d == s.len() || s[d] == c,
    ensures
        first_at(s, c) == d,
    decreases d,
{
    if s.len() > 0 {
        if d == 0 {
        } else {
            assert(s[0] != c);
            assert forall|j: int| 0 <= j < d - 1 implies s.drop_first()[j] != c by {
                assert(s.drop_first()[j] == s[j + 1]);
            }
            if d < s.len() {
                assert(s.drop_first()[d - 1] == s[d]);
            }
            lemma_first_at_is(s.drop_first(), c, d - 1);
        }
    }
}

/// Unfolds one step of field selection: field 0 is the prefix before the
/// first separator, later fields are fields of what follows it.
proof fn lemma_field_unfold(s: Seq<char>, k: int)
    requires
        k >= 0,
    ensures
        first_at(s, ' ') >= s.len() ==> spec_field(s, 0) == Some(s) && (k > 0 ==> spec_field(
            s,
            k,
        ) is None),
        first_at(s, ' ') < s.len() ==> spec_field(s, 0) == Some(
            s.take(first_at(s, ' ') as int),
        ) && (k > 0 ==> spec_field(s, k) == spec_field(s.skip(first_at(s, ' ') as int + 1), k - 1)),
{
    let fs = first_at(s, ' ');
    if fs >= s.len() {
        assert(spec_split(s, ' ') == seq![s]);
    } else {
        let rest = spec_split(s.skip(fs as int + 1), ' ');
        assert(spec_split(s, ' ') == seq![s.take(fs as int)] + rest);
        assert(spec_split(s, ' ')[0] == s.take(fs as int));
        assert(rest.len() >= 1);
        if k > 0 {
            if k < spec_split(s, ' ').len() {
                assert(spec_split(s, ' ')[k] == rest[k - 1]);
            }
        }
    }
}

/// Finds the first occurrence of `c` in `s` at or after `from`, returning the
/// record's length when there is none.
fn find_char(s: &str, from: usize, c: char) -> (r: usize)
    requires
        from <= s@.len(),
    ensures
        from <= r <= s@.len(),
        forall|j: int| from <= j < r ==> s@[j] != c,
        r < s@.len() ==> s@[r as int] == c,
{
    let n = s.unicode_len();
    let mut i: usize = from;
    while i < n
        invariant
            from <= i <= n,
            n == s@.len(),
            forall|j: int| from <= j < i ==> s@[j] != c,
        decreases n - i,
    {
        if s.get_char(i) == c {
            return i;
        }
        i = i + 1;
    }
    n
}

/// The `k`-th space-separated field, as a slice of the record.
fn nth_field<'x>(s: &'x str, k: usize) -> (r: Option<&'x str>)
    ensures
        match r {
            Some(f) => spec_field(s@, k as int) == Some(f@),
            None => spec_field(s@, k as int) is None,
        },
{
    let n = s.unicode_len();
    let mut start: usize = 0;
    let mut idx: usize = 0;
    proof {
        assert(s@.skip(0) =~= s@);
    }
    while idx < k
        invariant
            idx <= k,
            start <= n,
            n == s@.len(),
            spec_field(s@, k as int) == spec_field(s@.skip(start as int), k - idx),
        decreases k - idx,
    {
        let j = find_char(s, start, ' ');
        proof {
            let u = s@.skip(start as int);
            assert forall|j2: int| 0 <= j2 < j - start implies u[j2] != ' ' by {
                assert(u[j2] == s@[j2 + start]);
            }
            if j < n {
                assert(u[j - start] == s@[j as int]);
            }
            lemma_first_at_is(u, ' ', j - start);
            lemma_field_unfold(u, k - idx);
            if j < n {
                assert(u.skip(j - start + 1) =~= s@.skip(j as int + 1));
            }
        }
        if j == n {
            return None;
        }
        start = j + 1;
        idx = idx + 1;
    }
    let j = find_char(s, start, ' ');
    let f = s.substring_char(start, j);
    proof {
        let u = s@.skip(start as int);
        assert forall|j2: int| 0 <= j2 < j - start implies u[j2] != ' ' by {
            assert(u[j2] == s@[j2 + start]);
        }
        if j < n {
            assert(u[j - start] == s@[j as int]);
        }
        lemma_first_at_is(u, ' ', j - start);
        lemma_field_unfold(u, 0);
        if j - start < u.len() {
            assert(u.take(j - start) =~= f@);
        } else {
            assert(u =~= f@);
        }
    }
    Some(f)
}

fn is_ws_char(c: char) -> (r: bool)
    ensures
        r == ws(c),
{
    c == ' ' || c == '\t' || c == '\n' || c == '\r'
}

/// Strips whitespace from both ends of the record.
fn trim_str<'x>(s: &'x str) -> (r: &'x str)
    ensures
        r@ == spec_trim(s@),
{
    let n = s.unicode_len();
    let mut a: usize = 0;
    while a < n && is_ws_char(s.get_char(a))
        invariant
            a <= n,
            n == s@.len(),
            forall|j: int| 0 <= j < a ==> ws(s@[j]),
        decreases n - a,
    {
        a = a + 1;
    }
    proof {
        lemma_trim_front_skip(s@, a as int);
        if a < n {
            assert(!ws(s@.skip(a as int)[0]));
        }
        assert(trim_front(s@) == s@.skip(a as int));
    }
    let mut b: usize = n;
    while b > a && is_ws_char(s.get_char(b - 1))
        invariant
            a <= b <= n,
            n == s@.len(),
            forall|j: int| b <= j < n ==> ws(s@[j]),
        decreases b,
    {
        b = b - 1;
    }
    let r = s.substring_char(a, b);
    proof {
        let u = s@.skip(a as int);
        assert forall|j: int| b - a <= j < u.len() implies ws(u[j]) by {
            assert(u[j] == s@[j + a]);
        }
        lemma_trim_back_take(u, b - a);
        if b > a {
            assert(u.take(b - a)[b - a - 1] == s@[b - 1]);
            assert(!ws(u.take(b - a)[b - a - 1]));
        }
        assert(trim_back(u) == u.take(b - a));
        assert(u.take(b - a) =~= r@);
    }
    r
}

/// Skipping a whitespace prefix is what front trimming does.
proof fn lemma_trim_front_skip(s: Seq<char>, a: int)
    requires
        0 <= a <= s.len(),
        forall|j: int| 0 <= j < a ==> ws(s[j]),
    ensures
        trim_front(s) == trim_front(s.skip(a)),
    decreases a,
{
    if a > 0 {
        assert(ws(s[0]));
        assert(s.drop_first() =~= s.skip(1));
        assert forall|j: int| 0 <= j < a - 1 implies ws(s.skip(1)[j]) by {
            assert(s.skip(1)[j] == s[j + 1]);
        }
        lemma_trim_front_skip(s.skip(1), a - 1);
        assert(s.skip(1).skip(a - 1) =~= s.skip(a));
    } else {
        assert(s.skip(0) =~= s);
    }
}

/// Dropping a whitespace suffix is what back trimming does.
proof fn lemma_trim_back_take(s: Seq<char>, b: int)
    requires
        0 <= b <= s.len(),
        forall|j: int| b <= j < s.len() ==> ws(s[j]),
    ensures
        trim_back(s) == trim_back(s.take(b)),
    decreases s.len(),
{
    if b < s.len() {
        assert(ws(s[s.len() - 1]));
        assert forall|j: int| b <= j < s.len() - 1 implies ws(#[trigger] s.take(s.len() - 1)[j]) by {
            assert(s.take(s.len() - 1)[j] == s[j]);
        }
        lemma_trim_back_take(s.take(s.len() - 1), b);
        assert(s.take(s.len() - 1).take(b) =~= s.take(b));
    } else {
        assert(s.take(b) =~= s);
    }
}

/// The piece bitboard index a placement character denotes: white pieces are
/// upper-case and take the even indices, black the odd.
pub open spec fn spec_piece_val(c: char) -> Option<usize> {
    if c == 'P' {
        Some(0usize)
    } else if c == 'p' {
        Some(1usize)
    } else if c == 'N' {
        Some(2usize)
    } else if c == 'n' {
        Some(3usize)
    } else if c == 'R' {
        Some(4usize)
    } else if c == 'r' {
        Some(5usize)
    } else if c == 'B' {
        Some(6usize)
    } else if c == 'b' {
        Some(7usize)
    } else if c == 'Q' {
        Some(8usize)
    } else if c == 'q' {
        Some(9usize)
    } else if c == 'K' {
        Some(10usize)
    } else if c == 'k' {
        Some(11usize)
    } else {
        None
    }
}

/// How far a placement character advances along a rank: one square for a
/// piece, its value for a digit 1..8.
pub open spec fn spec_inc_val(c: char) -> Option<usize> {
    if spec_piece_val(c) is Some {
        Some(1usize)
    } else if 49 <= c as int <= 56 {
        Some((c as int - 48) as usize)
    } else {
        None
    }
}

/// Maps a placement character to its piece bitboard index.
pub fn piece_from_char(name: char) -> (r: Option<usize>)
    ensures
        r == spec_piece_val(name),
{
    match name {
        'P' => Some(0),
        'p' => Some(1),
        'N' => Some(2),
        'n' => Some(3),
        'R' => Some(4),
        'r' => Some(5),
        'B' => Some(6),
        'b' => Some(7),
        'Q' => Some(8),
        'q' => Some(9),
        'K' => Some(10),
        'k' => Some(11),
        _ => None,
    }
}

/// The number of squares to advance for a placement character.
pub fn inc_from_char(name: char) -> (r: Option<usize>)
    ensures
        r == spec_inc_val(name),
{
    match name {
        'P' | 'p' | 'N' | 'n' | 'R' | 'r' | 'B' | 'b' | 'Q' | 'q' | 'K' | 'k' => Some(1),
        '1'..='8' => Some((name as u32 - 48) as usize),
        _ => None,
    }
}

/// True when the two slices hold the same characters.
fn str_eq(a: &str, b: &str) -> (r: bool)
    ensures
        r == (a@ == b@),
{
    let n = a.unicode_len();
    if n != b.unicode_len() {
        return false;
    }
    let mut i: usize = 0;
    while i < n
        invariant
            i <= n,
            n == a@.len(),
            n == b@.len(),
            forall|j: int| 0 <= j < i ==> a@[j] == b@[j],
        decreases n - i,
    {
        if a.get_char(i) != b.get_char(i) {
            return false;
        }
        i = i + 1;
    }
    proof {
        assert(a@ =~= b@);
    }
    true
}

/// The colour to move a record's second field denotes.
pub open spec fn spec_ctm_of(s: Seq<char>) -> Option<usize> {
    match spec_field(s, 1) {
        Some(f) => if f == seq!['w'] {
            Some(0usize)
        } else if f == seq!['b'] {
            Some(1usize)
        } else {
            None
        },
        None => None,
    }
}

/// Reads the colour to move from the record's second field.
pub fn ctm_from_fen(fen: &str) -> (r: Result<usize, InvalidFenError>)
    ensures
        match r {
            Ok(c) => spec_ctm_of(fen@) == Some(c),
            Err(e) => spec_ctm_of(fen@) is None && e@ == fen@,
        },
{
    proof {
        reveal_strlit("w");
        reveal_strlit("b");
        assert("w"@ =~= seq!['w']);
        assert("b"@ =~= seq!['b']);
    }
    match nth_field(fen, 1) {
        None => Err(InvalidFenError::new(fen)),
        Some(f) => {
            if str_eq(f, "w") {
                Ok(0)
            } else if str_eq(f, "b") {
                Ok(1)
            } else {
                Err(InvalidFenError::new(fen))
            }
        },
    }
}

/// The castling-rights bits a record's third field denotes: `K`, `Q`, `k`,
/// `q` present in that order set bits 3..0; `-` alone means none.
pub open spec fn spec_castle_of(s: Seq<char>) -> Option<u8> {
    match spec_field(s, 2) {
        Some(f) => if f == seq!['K', 'Q', 'k', 'q'] {
            Some(0b1111u8)
        } else if f == seq!['K', 'Q', 'k'] {
            Some(0b1110u8)
        } else if f == seq!['K', 'Q', 'q'] {
            Some(0b1101u8)
        } else if f == seq!['K', 'Q'] {
            Some(0b1100u8)
        } else if f == seq!['K', 'k', 'q'] {
            Some(0b1011u8)
        } else if f == seq!['K', 'k'] {
            Some(0b1010u8)
        } else if f == seq!['K', 'q'] {
            Some(0b1001u8)
        } else if f == seq!['K'] {
            Some(0b1000u8)
        } else if f == seq!['Q', 'k', 'q'] {
            Some(0b0111u8)
        } else if f == seq!['Q', 'k'] {
            Some(0b0110u8)
        } else if f == seq!['Q', 'q'] {
            Some(0b0101u8)
        } else if f == seq!['Q'] {
            Some(0b0100u8)
        } else if f == seq!['k', 'q'] {
            Some(0b0011u8)
        } else if f == seq!['k'] {
            Some(0b0010u8)
        } else if f == seq!['q'] {
            Some(0b0001u8)
        } else if f == seq!['-'] {
            Some(0b0000u8)
        } else {
            None
        },
        None => None,
    }
}

/// Reads the castling rights from the record's third field.
pub fn castle_state_from_fen(fen: &str) -> (r: Result<u8, InvalidFenError>)
    ensures
        match r {
            Ok(c) => spec_castle_of(fen@) == Some(c),
            Err(e) => spec_castle_of(fen@) is None && e@ == fen@,
        },
{
    proof {
        reveal_strlit("KQkq");
        reveal_strlit("KQk");
        reveal_strlit("KQq");
        reveal_strlit("KQ");
        reveal_strlit("Kkq");
        reveal_strlit("Kk");
        reveal_strlit("Kq");
        reveal_strlit("K");
        reveal_strlit("Qkq");
        reveal_strlit("Qk");
        reveal_strlit("Qq");
        reveal_strlit("Q");
        reveal_strlit("kq");
        reveal_strlit("k");
        reveal_strlit("q");
        reveal_strlit("-");
        assert("KQkq"@ =~= seq!['K', 'Q', 'k', 'q']);
        assert("KQk"@ =~= seq!['K', 'Q', 'k']);
        assert("KQq"@ =~= seq!['K', 'Q', 'q']);
        assert("KQ"@ =~= seq!['K', 'Q']);
        assert("Kkq"@ =~= seq!['K', 'k', 'q']);
        assert("Kk"@ =~= seq!['K', 'k']);
        assert("Kq"@ =~= seq!['K', 'q']);
        assert("K"@ =~= seq!['K']);
        assert("Qkq"@ =~= seq!['Q', 'k', 'q']);
        assert("Qk"@ =~= seq!['Q', 'k']);
        assert("Qq"@ =~= seq!['Q', 'q']);
        assert("Q"@ =~= seq!['Q']);
        assert("kq"@ =~= seq!['k', 'q']);
        assert("k"@ =~= seq!['k']);
        assert("q"@ =~= seq!['q']);
        assert("-"@ =~= seq!['-']);
    }
    let f = match nth_field(fen, 2) {
        None => {
            return Err(InvalidFenError::new(fen));
        },
        Some(f) => f,
    };
    if str_eq(f, "KQkq") {
        Ok(0b1111)
    } else if str_eq(f, "KQk") {
        Ok(0b1110)
    } else if str_eq(f, "KQq") {
        Ok(0b1101)
    } else if str_eq(f, "KQ") {
        Ok(0b1100)
    } else if str_eq(f, "Kkq") {
        Ok(0b1011)
    } else if str_eq(f, "Kk") {
        Ok(0b1010)
    } else if str_eq(f, "Kq") {
        Ok(0b1001)
    } else if str_eq(f, "K") {
        Ok(0b1000)
    } else if str_eq(f, "Qkq") {
        Ok(0b0111)
    } else if str_eq(f, "Qk") {
        Ok(0b0110)
    } else if str_eq(f, "Qq") {
        Ok(0b0101)
    } else if str_eq(f, "Q") {
        Ok(0b0100)
    } else if str_eq(f, "kq") {
        Ok(0b0011)
    } else if str_eq(f, "k") {
        Ok(0b0010)
    } else if str_eq(f, "q") {
        Ok(0b0001)
    } else if str_eq(f, "-") {
        Ok(0b0000)
    } else {
        Err(InvalidFenError::new(fen))
    }
}

/// The en-passant target square a record's fourth field denotes: 64 for a
/// field holding `-`, else the square named by a file letter and a rank
/// digit that must be 3 or 6.
pub open spec fn spec_ep_of(s: Seq<char>) -> Option<usize> {
    match spec_field(s, 3) {
        Some(f) => if exists|i: int| 0 <= i < f.len() && f[i] == '-' {
            Some(64usize)
        } else if f.len() >= 2 && 97 <= f[0] as int <= 104 && (f[1] == '3' || f[1] == '6') {
            if f[1] == '3' {
                Some((16 + f[0] as int - 97) as usize)
            } else {
                Some((40 + f[0] as int - 97) as usize)
            }
        } else {
            None
        },
        None => None,
    }
}

/// Reads the en-passant target square from the record's fourth field.
pub fn ep_sq_from_fen(fen: &str) -> (r: Result<usize, InvalidFenError>)
    ensures
        match r {
            Ok(sq) => spec_ep_of(fen@) == Some(sq),
            Err(e) => spec_ep_of(fen@) is None && e@ == fen@,
        },
{
    let f = match nth_field(fen, 3) {
        None => {
            return Err(InvalidFenError::new(fen));
        },
        Some(f) => f,
    };
    let n = f.unicode_len();
    let dash = find_char(f, 0, '-');
    if dash < n {
        proof {
            assert(f@[dash as int] == '-');
        }
        return Ok(64);
    }
    proof {
        assert(forall|i: int| 0 <= i < f@.len() ==> f@[i] != '-');
    }
    if n < 1 {
        return Err(InvalidFenError::new(fen));
    }
    let file_char = f.get_char(0);
    let fv = file_char as u32;
    if fv < 97 || fv > 104 {
        return Err(InvalidFenError::new(fen));
    }
    if n < 2 {
        return Err(InvalidFenError::new(fen));
    }
    let rank_char = f.get_char(1);
    if !(rank_char == '3' || rank_char == '6') {
        return Err(InvalidFenError::new(fen));
    }
    let file = (fv - 97) as usize;
    if rank_char == '3' {
        Ok(16 + file)
    } else {
        Ok(40 + file)
    }
}

/// True when every character of `f` is a decimal digit.
pub open spec fn all_digits(f: Seq<char>) -> bool {
    forall|i: int| 0 <= i < f.len() ==> 48 <= #[trigger] f[i] as int <= 57
}

/// The number a string of decimal digits denotes.
pub open spec fn digits_val(f: Seq<char>) -> int
    decreases f.len(),
{
    if f.len() == 0 {
        0
    } else {
        digits_val(f.take(f.len() - 1)) * 10 + (f[f.len() - 1] as int - 48)
    }
}

/// The halfmove clock a record denotes: 0 when the fifth field is absent, its
/// decimal value when it is a representable number, nothing otherwise.
pub open spec fn spec_halfmove_of(s: Seq<char>) -> Option<usize> {
    match spec_field(s, 4) {
        None => Some(0usize),
        Some(f) => if f.len() > 0 && all_digits(f) && digits_val(f) <= usize::MAX {
            Some(digits_val(f) as usize)
        } else {
            None
        },
    }
}

/// A digit string's value only grows as digits are appended.
proof fn lemma_digits_prefix(f: Seq<char>, k: int)
    requires
        all_digits(f),
        0 <= k <= f.len(),
    ensures
        digits_val(f) >= digits_val(f.take(k)) >= 0,
    decreases f.len(),
{
    if k == f.len() {
        assert(f.take(k) =~= f);
        lemma_digits_nonneg(f);
    } else {
        let p = f.take(f.len() - 1);
        assert forall|i: int| 0 <= i < p.len() implies 48 <= #[trigger] p[i] as int <= 57 by {
            assert(p[i] == f[i]);
        }
        lemma_digits_prefix(p, k);
        assert(p.take(k) =~= f.take(k));
        lemma_digits_nonneg(p);
    }
}

/// A digit string's value is not negative.
proof fn lemma_digits_nonneg(f: Seq<char>)
    requires
        all_digits(f),
    ensures
        digits_val(f) >= 0,
    decreases f.len(),
{
    if f.len() > 0 {
        let p = f.take(f.len() - 1);
        assert forall|i: int| 0 <= i < p.len() implies 48 <= #[trigger] p[i] as int <= 57 by {
            assert(p[i] == f[i]);
        }
        lemma_digits_nonneg(p);
    }
}

/// Reads the halfmove clock from the record's fifth field, if present.
pub fn halfmove_from_fen(fen: &str) -> (r: Result<Option<usize>, InvalidFenError>)
    ensures
        match r {
            Ok(h) => match h {
                None => spec_field(fen@, 4) is None && spec_halfmove_of(fen@) == Some(0usize),
                Some(v) => spec_halfmove_of(fen@) == Some(v),
            },
            Err(e) => spec_halfmove_of(fen@) is None && e@ == fen@,
        },
{
    let f = match nth_field(fen, 4) {
        None => {
            return Ok(None);
        },
        Some(f) => f,
    };
    let n = f.unicode_len();
    if n == 0 {
        return Err(InvalidFenError::new(fen));
    }
    let mut v: usize = 0;
    let mut i: usize = 0;
    while i < n
        invariant
            0 < n == f@.len(),
            i <= n,
            spec_field(fen@, 4) == Some(f@),
            forall|j: int| 0 <= j < i ==> 48 <= #[trigger] f@[j] as int <= 57,
            v == digits_val(f@.take(i as int)),
        decreases n - i,
    {
        let c = f.get_char(i);
        let d = c as u32;
        if d < 48 || d > 57 {
            proof {
                assert(f@[i as int] == c);
                assert(!(48 <= f@[i as int] as int <= 57));
                assert(!all_digits(f@));
            }
            return Err(InvalidFenError::new(fen));
        }
        proof {
            assert(f@[i as int] == c);
            assert(48 <= f@[i as int] as int <= 57);
        }
        proof {
            assert(f@.take(i + 1).take(i as int) =~= f@.take(i as int));
            assert(f@.take(i + 1)[i as int] == f@[i as int]);
        }
        if v > usize::MAX / 10 {
            proof {
                lemma_digits_overflow(f@, i as int, v as int);
            }
            return Err(InvalidFenError::new(fen));
        }
        let v10 = v * 10;
        let dd = (d - 48) as usize;
        if dd > usize::MAX - v10 {
            proof {
                lemma_digits_overflow(f@, i as int, v as int);
            }
            return Err(InvalidFenError::new(fen));
        }
        v = v10 + dd;
        i = i + 1;
    }
    proof {
        assert(f@.take(n as int) =~= f@);
    }
    Ok(Some(v))
}

/// When the next digit would push the running value past the largest
/// representable number, the whole string's value is past it too.
proof fn lemma_digits_overflow(f: Seq<char>, i: int, v: int)
    requires
        0 <= i < f.len(),
        forall|j: int| 0 <= j <= i ==> 48 <= #[trigger] f[j] as int <= 57,
        v == digits_val(f.take(i)),
        v * 10 + (f[i] as int - 48) > usize::MAX,
    ensures
        !(f.len() > 0 && all_digits(f) && digits_val(f) <= usize::MAX),
{
    if all_digits(f) {
        lemma_digits_prefix(f, i + 1);
        assert(f.take(i + 1).take(i) =~= f.take(i));
        assert(f.take(i + 1)[i] == f[i]);
        assert(digits_val(f.take(i + 1)) == v * 10 + (f[i] as int - 48));
    }
}

/// One rank of placement applied to the piece bitboards: each piece character
/// sets its piece's bit at the running square and advances one file, each
/// digit advances that many files; at most eight characters count, a piece
/// landing past the board is an error, anything else is an error.
pub open spec fn spec_row(ps: Seq<u64>, row: Seq<char>, idx: int, cnt: int) -> Option<Seq<u64>>
    decreases row.len(),
{
    if cnt >= 8 || row.len() == 0 {
        Some(ps)
    } else {
        let c = row[0];
        match spec_piece_val(c) {
            Some(p) => if idx >= 64 {
                None
            } else {
                spec_row(
                    ps.update(p as int, ps[p as int] ^ (1u64 << (idx as u64))),
                    row.drop_first(),
                    idx + 1,
                    cnt + 1,
                )
            },
            None => match spec_inc_val(c) {
                Some(d) => spec_row(ps, row.drop_first(), idx + d, cnt + 1),
                None => None,
            },
        }
    }
}

/// The ranks of the placement field applied from the bottom up: the record
/// lists ranks from the top, so rank `i` reads the `i`-th row from the end
/// and starts at square `8 * i` (past the board for rows beyond the eighth).
pub open spec fn spec_rows(ps: Seq<u64>, rows: Seq<Seq<char>>, i: int) -> Option<Seq<u64>>
    decreases rows.len() - i,
{
    if i >= rows.len() {
        Some(ps)
    } else {
        match spec_row(
            ps,
            rows[rows.len() - 1 - i],
            if i < 8 {
                8 * i
            } else {
                64
            },
            0,
        ) {
            Some(ps2) => spec_rows(ps2, rows, i + 1),
            None => None,
        }
    }
}

/// The twelve piece bitboards the record's first field denotes.
pub open spec fn spec_pieces(s: Seq<char>) -> Option<Seq<u64>> {
    match spec_field(s, 0) {
        Some(f0) => spec_rows(Seq::new(12, |q: int| 0u64), spec_split(f0, '/'), 0),
        None => None,
    }
}

/// Divides a record at every occurrence of `c`.
fn split_all<'x>(s: &'x str, c: char) -> (out: Vec<&'x str>)
    ensures
        out@.len() == spec_split(s@, c).len(),
        forall|i: int| 0 <= i < out@.len() ==> #[trigger] out@[i]@ == spec_split(s@, c)[i],
{
    let n = s.unicode_len();
    let mut out: Vec<&'x str> = Vec::new();
    let mut start: usize = 0;
    let mut fin: bool = false;
    proof {
        assert(s@.skip(0) =~= s@);
    }
    while !fin
        invariant
            n == s@.len(),
            start <= n,
            !fin ==> out@.len() + spec_split(s@.skip(start as int), c).len() == spec_split(
                s@,
                c,
            ).len(),
            !fin ==> forall|j: int|
                0 <= j < spec_split(s@.skip(start as int), c).len() ==> #[trigger] spec_split(
                    s@.skip(start as int),
                    c,
                )[j] == spec_split(s@, c)[out@.len() + j],
            fin ==> out@.len() == spec_split(s@, c).len(),
            forall|i: int| 0 <= i < out@.len() ==> #[trigger] out@[i]@ == spec_split(s@, c)[i],
        decreases (if fin {
            0int
        } else {
            1int
        }), n - start,
    {
        let j = find_char(s, start, c);
        let f = s.substring_char(start, j);
        proof {
            let u = s@.skip(start as int);
            assert forall|j2: int| 0 <= j2 < j - start implies u[j2] != c by {
                assert(u[j2] == s@[j2 + start]);
            }
            if j < n {
                assert(u[j - start] == s@[j as int]);
            }
            lemma_first_at_is(u, c, j - start);
        }
        if j == n {
            proof {
                let u = s@.skip(start as int);
                assert(spec_split(u, c) == seq![u]);
                assert(u =~= f@);
                assert(spec_split(u, c)[0] == spec_split(s@, c)[out@.len() as int]);
            }
            out.push(f);
            fin = true;
        } else {
            proof {
                let u = s@.skip(start as int);
                let rest = spec_split(u.skip(j - start + 1), c);
                assert(spec_split(u, c) == seq![u.take(j - start)] + rest);
                assert(u.take(j - start) =~= f@);
                assert(u.skip(j - start + 1) =~= s@.skip(j as int + 1));
                assert(spec_split(u, c)[0] == spec_split(s@, c)[out@.len() as int]);
                assert forall|j2: int| 0 <= j2 < rest.len() implies #[trigger] rest[j2]
                    == spec_split(s@, c)[out@.len() as int + 1 + j2] by {
                    assert(spec_split(u, c)[j2 + 1] == rest[j2]);
                    assert(spec_split(u, c)[j2 + 1] == spec_split(s@, c)[out@.len() as int + (j2 + 1)]);
                }
            }
            out.push(f);
            start = j + 1;
        }
    }
    out
}

/// Reads the twelve piece bitboards from the record's first field.
pub fn pieces_from_fen(fen: &str) -> (r: Result<[u64; 12], InvalidFenError>)
    ensures
        match r {
            Ok(ps) => spec_pieces(fen@) == Some(ps@),
            Err(e) => spec_pieces(fen@) is None && e@ == fen@,
        },
{
    let f0 = match nth_field(fen, 0) {
        None => {
            return Err(InvalidFenError::new(fen));
        },
        Some(f) => f,
    };
    let rows = split_all(f0, '/');
    let nr = rows.len();
    let mut pieces: [u64; 12] = [0, 0, 0, 0, 0, 0, 0, 0, 0, 0, 0, 0];
    let ghost rows_spec = spec_split(f0@, '/');
    let ghost zeros = Seq::new(12, |q: int| 0u64);
    proof {
        assert(pieces@ =~= zeros);
    }
    let mut i: usize = 0;
    while i < nr
        invariant
            nr == rows@.len(),
            nr == rows_spec.len(),
            spec_field(fen@, 0) == Some(f0@),
            rows_spec == spec_split(f0@, '/'),
            zeros == Seq::new(12, |q: int| 0u64),
            forall|q: int| 0 <= q < nr ==> #[trigger] rows@[q]@ == rows_spec[q],
            i <= nr,
            pieces@.len() == 12,
            spec_rows(zeros, rows_spec, 0) == spec_rows(pieces@, rows_spec, i as int),
        decreases nr - i,
    {
        let row = rows[nr - 1 - i];
        let start: usize = if i < 8 {
            8 * i
        } else {
            64
        };
        let ghost ps0 = pieces@;
        let rn = row.unicode_len();
        let mut idx: usize = start;
        let mut cnt: usize = 0;
        let mut ci: usize = 0;
        proof {
            assert(row@.skip(0) =~= row@);
        }
        while ci < rn && cnt < 8
            invariant
                nr == rows@.len(),
                nr == rows_spec.len(),
                i < nr,
                rn == row@.len(),
                row@ == rows_spec[nr - 1 - i as int],
                ci <= rn,
                cnt <= 8,
                start <= 64,
                i < 8 ==> start == 8 * i,
                i >= 8 ==> start == 64,
                idx <= start + 8 * cnt,
                pieces@.len() == 12,
                spec_field(fen@, 0) == Some(f0@),
                rows_spec == spec_split(f0@, '/'),
                zeros == Seq::new(12, |q: int| 0u64),
                spec_rows(zeros, rows_spec, 0) == spec_rows(ps0, rows_spec, i as int),
                spec_row(ps0, row@, start as int, 0) == spec_row(
                    pieces@,
                    row@.skip(ci as int),
                    idx as int,
                    cnt as int,
                ),
            decreases rn - ci,
        {
            let c = row.get_char(ci);
            proof {
                assert(row@.skip(ci as int)[0] == row@[ci as int]);
                assert(row@.skip(ci as int).drop_first() =~= row@.skip(ci as int + 1));
            }
            match piece_from_char(c) {
                Some(p) => {
                    if idx >= 64 {
                        proof {
                            assert(spec_row(ps0, row@, start as int, 0) is None);
                            assert(spec_rows(ps0, rows_spec, i as int) is None);
                            assert(spec_rows(zeros, rows_spec, 0) is None);
                            assert(spec_pieces(fen@) is None);
                        }
                        return Err(InvalidFenError::new(fen));
                    }
                    pieces[p] = pieces[p] ^ (1u64 << (idx as u64));
                    idx = idx + 1;
                },
                None => {
                    match inc_from_char(c) {
                        Some(d) => {
                            idx = idx + d;
                        },
                        None => {
                            proof {
                                assert(spec_row(ps0, row@, start as int, 0) is None);
                                assert(spec_rows(ps0, rows_spec, i as int) is None);
                                assert(spec_rows(zeros, rows_spec, 0) is None);
                                assert(spec_pieces(fen@) is None);
                            }
                            return Err(InvalidFenError::new(fen));
                        },
                    }
                },
            }
            cnt = cnt + 1;
            ci = ci + 1;
        }
        proof {
            if ci == rn {
                assert(row@.skip(ci as int) =~= Seq::<char>::empty());
            }
            assert(spec_row(pieces@, row@.skip(ci as int), idx as int, cnt as int) == Some(
                pieces@,
            ));
            assert(spec_rows(ps0, rows_spec, i as int) == spec_rows(pieces@, rows_spec, i as int
                + 1));
        }
        i = i + 1;
    }
    proof {
        assert(spec_rows(pieces@, rows_spec, nr as int) == Some(pieces@));
        assert(spec_pieces(fen@) == Some(pieces@));
    }
    Ok(pieces)
}

/// The placement invariants a decoded record must satisfy before it can
/// become a board: no square holds two pieces and each king bitboard holds
/// exactly one square.
pub open spec fn placement_ok(ps: Seq<u64>) -> bool {
    &&& forall|i: int, j: int| 0 <= i < j < 12 ==> #[trigger] (ps[i] & ps[j]) == 0
    &&& ps[10] != 0 && ps[10] & ((ps[10] - 1) as u64) == 0
    &&& ps[11] != 0 && ps[11] & ((ps[11] - 1) as u64) == 0
}

/// The en-passant target must be absent or lie on the rank that the side to
/// move could have just been given.
pub open spec fn ep_consistent(ep: usize, ctm: usize) -> bool {
    ep == 64 || (ctm == 1 && 16 <= ep < 24) || (ctm == 0 && 40 <= ep < 48)
}

/// A (trimmed) record decodes into a board exactly when every field parses
/// and the decoded placement and en-passant target satisfy the board
/// invariants.
pub open spec fn spec_board_ok(t: Seq<char>) -> bool {
    &&& spec_castle_of(t) is Some
    &&& spec_halfmove_of(t) is Some
    &&& spec_pieces(t) matches Some(ps) && placement_ok(ps)
    &&& spec_ep_of(t) matches Some(ep) && spec_ctm_of(t) matches Some(c) && ep_consistent(ep, c)
}

impl Board {
    /// Decodes a record into a board. On success the board satisfies the
    /// board invariants and its fields are exactly what the record's fields
    /// denote; the hash and evaluation accumulators start at zero for the
    /// hashing and evaluation collaborators to fill. A record whose fields do
    /// not all parse, or whose placement or en-passant target would break the
    /// board invariants, is reported invalid.
    pub fn new_fen(fen: &str) -> (r: Result<Board, InvalidFenError>)
        ensures
            r is Ok <==> spec_board_ok(spec_trim(fen@)),
            match r {
                Ok(b) => {
                    &&& b.wf()
                    &&& spec_pieces(spec_trim(fen@)) == Some(b.pieces@)
                    &&& spec_ctm_of(spec_trim(fen@)) == Some(b.ctm)
                    &&& spec_castle_of(spec_trim(fen@)) == Some(b.castle_state)
                    &&& spec_ep_of(spec_trim(fen@)) == Some(b.ep)
                    &&& spec_halfmove_of(spec_trim(fen@)) == Some(b.halfmove)
                    &&& b.util@[0] == b.colour_occ(0) && b.util@[1] == b.colour_occ(1)
                    &&& b.hash == 0 && b.mg_value == 0 && b.eg_value == 0
                },
                Err(e) => e@ == spec_trim(fen@),
            },
    {
        let fen_t = trim_str(fen);
        let pieces = match pieces_from_fen(fen_t) {
            Ok(p) => p,
            Err(e) => {
                return Err(e);
            },
        };
        let ctm = match ctm_from_fen(fen_t) {
            Ok(c) => c,
            Err(e) => {
                return Err(e);
            },
        };
        let castle_state = match castle_state_from_fen(fen_t) {
            Ok(c) => c,
            Err(e) => {
                return Err(e);
            },
        };
        let ep = match ep_sq_from_fen(fen_t) {
            Ok(sq) => sq,
            Err(e) => {
                return Err(e);
            },
        };
        let halfmove = match halfmove_from_fen(fen_t) {
            Ok(Some(h)) => h,
            Ok(None) => 0,
            Err(e) => {
                return Err(e);
            },
        };
        // no square may hold two pieces
        let mut p: usize = 1;
        while p < 12
            invariant
                1 <= p <= 12,
                fen_t@ == spec_trim(fen@),
                spec_pieces(fen_t@) == Some(pieces@),
                forall|i: int, j: int| 0 <= i < j < p ==> #[trigger] (pieces@[i] & pieces@[j])
                    == 0,
            decreases 12 - p,
        {
            let mut q: usize = 0;
            while q < p
                invariant
                    1 <= p < 12,
                    q <= p,
                    fen_t@ == spec_trim(fen@),
                    spec_pieces(fen_t@) == Some(pieces@),
                    forall|i: int, j: int| 0 <= i < j < p ==> #[trigger] (pieces@[i] & pieces@[j])
                        == 0,
                    forall|i: int| 0 <= i < q ==> #[trigger] (pieces@[i] & pieces@[p as int])
                        == 0,
                decreases p - q,
            {
                if pieces[q] & pieces[p] != 0 {
                    proof {
                        assert(!placement_ok(pieces@));
                    }
                    return Err(InvalidFenError::new(fen_t));
                }
                q = q + 1;
            }
            p = p + 1;
        }
        // each side has exactly one king
        if pieces[10] == 0 || pieces[10] & (pieces[10] - 1) != 0 {
            proof {
                assert(!placement_ok(pieces@));
            }
            return Err(InvalidFenError::new(fen_t));
        }
        if pieces[11] == 0 || pieces[11] & (pieces[11] - 1) != 0 {
            proof {
                assert(!placement_ok(pieces@));
            }
            return Err(InvalidFenError::new(fen_t));
        }
        // the en-passant target must fit the side to move
        if !(ep == 64 || (ctm == 1 && 16 <= ep && ep < 24) || (ctm == 0 && 40 <= ep && ep < 48)) {
            proof {
                assert(!ep_consistent(ep, ctm));
            }
            return Err(InvalidFenError::new(fen_t));
        }
        let white = pieces[0] | pieces[2] | pieces[4] | pieces[6] | pieces[8] | pieces[10];
        let black = pieces[1] | pieces[3] | pieces[5] | pieces[7] | pieces[9] | pieces[11];
        let board = Board {
            pieces,
            util: [white, black, white | black],
            ctm,
            castle_state,
            ep,
            halfmove,
            hash: 0,
            mg_value: 0,
            eg_value: 0,
        };
        proof {
            lemma_colour_unions_disjoint(pieces@, white, black);
            assert(board.wf());
        }
        Ok(board)
    }
}

/// Pairwise-disjoint piece bitboards have disjoint colour aggregates.
proof fn lemma_colour_unions_disjoint(ps: Seq<u64>, white: u64, black: u64)
    requires
        ps.len() == 12,
        forall|i: int, j: int| 0 <= i < j < 12 ==> #[trigger] (ps[i] & ps[j]) == 0,
        white == ps[0] | ps[2] | ps[4] | ps[6] | ps[8] | ps[10],
        black == ps[1] | ps[3] | ps[5] | ps[7] | ps[9] | ps[11],
    ensures
        white & black == 0,
{
    if white & black != 0 {
        let wb = white & black;
        crate::bits::lemma_low_bit(wb);
        let t = crate::bits::low_bit(wb);
        crate::bits::lemma_bit_and(white, black);
        assert(crate::bits::bit(white, t) && crate::bits::bit(black, t));
        crate::bits::lemma_bit_or(ps[0] | ps[2] | ps[4] | ps[6] | ps[8], ps[10]);
        crate::bits::lemma_bit_or(ps[0] | ps[2] | ps[4] | ps[6], ps[8]);
        crate::bits::lemma_bit_or(ps[0] | ps[2] | ps[4], ps[6]);
        crate::bits::lemma_bit_or(ps[0] | ps[2], ps[4]);
        crate::bits::lemma_bit_or(ps[0], ps[2]);
        crate::bits::lemma_bit_or(ps[1] | ps[3] | ps[5] | ps[7] | ps[9], ps[11]);
        crate::bits::lemma_bit_or(ps[1] | ps[3] | ps[5] | ps[7], ps[9]);
        crate::bits::lemma_bit_or(ps[1] | ps[3] | ps[5], ps[7]);
        crate::bits::lemma_bit_or(ps[1] | ps[3], ps[5]);
        crate::bits::lemma_bit_or(ps[1], ps[3]);
        crate::bits::lemma_bit_zero();
        let we = choose|i: int| (i == 0 || i == 2 || i == 4 || i == 6 || i == 8 || i == 10)
            && crate::bits::bit(#[trigger] ps[i], t);
        let be = choose|i: int| (i == 1 || i == 3 || i == 5 || i == 7 || i == 9 || i == 11)
            && crate::bits::bit(#[trigger] ps[i], t);
        if we < be {
            crate::bits::lemma_bit_and(ps[we], ps[be]);
            assert(crate::bits::bit(ps[we] & ps[be], t));
        } else {
            crate::bits::lemma_bit_and(ps[be], ps[we]);
            assert(crate::bits::bit(ps[be] & ps[we], t));
        }
        assert(false);
    }
}

} // verus!
