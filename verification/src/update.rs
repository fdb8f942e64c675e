//! Release version comparison and the decision whether an update is available.

use vstd::prelude::*;
use vstd::string::{StrSliceExecFns, StringExecFns};

verus! {

/// Information about an available update.
pub struct UpdateInfo {
    pub latest_version: String,
    pub current_version: String,
    pub release_url: String,
}

/// The pieces of `s` between dots (`""` gives one empty piece).
pub open spec fn dot_pieces(s: Seq<char>) -> Seq<Seq<char>>
    decreases s.len(),
{
    if s.len() == 0 {
        seq![Seq::empty()]
    } else {
        let p = dot_pieces(s.drop_last());
        if s.last() == '.' {
            p.push(Seq::empty())
        } else {
            p.update(p.len() - 1, p.last().push(s.last()))
        }
    }
}

/// An ASCII decimal digit.
pub open spec fn is_digit(c: char) -> bool {
    '0' <= c <= '9'
}

/// Value of a string of decimal digits (0 for none).
pub open spec fn digits_value(d: Seq<char>) -> nat
    decreases d.len(),
{
    if d.len() == 0 {
        0
    } else {
        digits_value(d.drop_last()) * 10 + ((d.last() as u32) - ('0' as u32)) as nat
    }
}

/// The digits of a piece after an optional leading `+`.
pub open spec fn piece_body(p: Seq<char>) -> Seq<char> {
    if p.len() > 0 && p[0] == '+' {
        p.drop_first()
    } else {
        p
    }
}

/// What `str::parse::<u64>` gives for a piece: an optional `+`, then at least one
/// ASCII digit, and a value that fits in `u64`.
pub open spec fn parse_u64(p: Seq<char>) -> Option<u64> {
    let body = piece_body(p);
    if body.len() > 0 && (forall|i: int| 0 <= i < body.len() ==> is_digit(#[trigger] body[i]))
        && digits_value(body) <= u64::MAX {
        Some(digits_value(body) as u64)
    } else {
        None
    }
}

/// The numbers of the pieces that parse, in order.
pub open spec fn parsed_pieces(pieces: Seq<Seq<char>>) -> Seq<u64>
    decreases pieces.len(),
{
    if pieces.len() == 0 {
        Seq::empty()
    } else {
        let rest = parsed_pieces(pieces.drop_last());
        match parse_u64(pieces.last()) {
            Some(v) => rest.push(v),
            None => rest,
        }
    }
}

/// The version numbers of a version string: its dot-separated pieces that are
/// numbers, in order (pieces that are not are skipped).
pub open spec fn version_numbers(s: Seq<char>) -> Seq<u64> {
    parsed_pieces(dot_pieces(s))
}

/// Lexicographic order of number sequences, a proper prefix coming first.
pub open spec fn lex_less(a: Seq<u64>, b: Seq<u64>) -> bool
    decreases a.len(),
{
    if b.len() == 0 {
        false
    } else if a.len() == 0 {
        true
    } else if a[0] != b[0] {
        a[0] < b[0]
    } else {
        lex_less(a.drop_first(), b.drop_first())
    }
}

/// The part of `s` before the first `c` (all of `s` if there is none).
pub open spec fn before_char(s: Seq<char>, c: char) -> Seq<char>
    decreases s.len(),
{
    if s.len() == 0 {
        s
    } else if s[0] == c {
        Seq::empty()
    } else {
        seq![s[0]] + before_char(s.drop_first(), c)
    }
}

/// The part of `s` after the first `c`, if there is one.
pub open spec fn after_char(s: Seq<char>, c: char) -> Option<Seq<char>>
    decreases s.len(),
{
    if s.len() == 0 {
        None
    } else if s[0] == c {
        Some(s.drop_first())
    } else {
        after_char(s.drop_first(), c)
    }
}

/// Lexicographic order of sequences under an order `lt` of their items, a proper
/// prefix coming first.
pub open spec fn seq_lex<A>(a: Seq<A>, b: Seq<A>, lt: spec_fn(A, A) -> bool) -> bool
    decreases a.len(),
{
    if b.len() == 0 {
        false
    } else if a.len() == 0 {
        true
    } else if a[0] != b[0] {
        lt(a[0], b[0])
    } else {
        seq_lex(a.drop_first(), b.drop_first(), lt)
    }
}

/// `lt` is a strict order: irreflexive and transitive.
pub open spec fn strict_order<A>(lt: spec_fn(A, A) -> bool) -> bool {
    &&& forall|x: A| !#[trigger] lt(x, x)
    &&& forall|x: A, y: A, z: A| #![trigger lt(x, y), lt(y, z)] lt(x, y) && lt(y, z) ==> lt(x, z)
}

/// Characters ordered by their code points (ASCII order for ASCII text).
pub open spec fn char_lt() -> spec_fn(char, char) -> bool {
    |x: char, y: char| (x as u32) < (y as u32)
}

/// A pre-release identifier: a number (digits that fit in `u64`) or text.
pub enum Ident {
    Num(u64),
    Text(Seq<char>),
}

/// The identifier a dot-separated piece of a pre-release stands for.
pub open spec fn ident_of(p: Seq<char>) -> Ident {
    match parse_u64(p) {
        Some(v) => Ident::Num(v),
        None => Ident::Text(p),
    }
}

/// Semantic-versioning order of identifiers: numbers by value, below any text;
/// text in ASCII order.
pub open spec fn ident_lt(a: Ident, b: Ident) -> bool {
    match (a, b) {
        (Ident::Num(x), Ident::Num(y)) => x < y,
        (Ident::Num(_), Ident::Text(_)) => true,
        (Ident::Text(_), Ident::Num(_)) => false,
        (Ident::Text(x), Ident::Text(y)) => seq_lex(x, y, char_lt()),
    }
}

/// `ident_lt` as a function value.
pub open spec fn ident_order() -> spec_fn(Ident, Ident) -> bool {
    |a: Ident, b: Ident| ident_lt(a, b)
}

/// The identifiers of a pre-release: its dot-separated pieces.
pub open spec fn pre_idents(p: Seq<char>) -> Seq<Ident> {
    dot_pieces(p).map_values(|q: Seq<char>| ident_of(q))
}

/// A version without its build metadata (from the first `+` on).
pub open spec fn without_build(s: Seq<char>) -> Seq<char> {
    before_char(s, '+')
}

/// The release numbers of a version: the numbers of its part before the first `-`
/// (build metadata left out).
pub open spec fn version_core(s: Seq<char>) -> Seq<u64> {
    version_numbers(before_char(without_build(s), '-'))
}

/// The pre-release identifiers of a version (after the first `-`), if it has any.
pub open spec fn version_pre(s: Seq<char>) -> Option<Seq<Ident>> {
    match after_char(without_build(s), '-') {
        Some(p) => Some(pre_idents(p)),
        None => None,
    }
}

/// Pre-release precedence at equal release numbers: a pre-release comes before the
/// release; two pre-releases compare identifier by identifier.
pub open spec fn pre_less(a: Option<Seq<Ident>>, b: Option<Seq<Ident>>) -> bool {
    match (a, b) {
        (Some(x), Some(y)) => seq_lex(x, y, ident_order()),
        (Some(_), None) => true,
        _ => false,
    }
}

/// `remote` is a newer version than `local` by semantic-versioning precedence:
/// release numbers first (compared in order, a missing number counting as older),
/// then pre-release identifiers; build metadata is ignored.
pub open spec fn newer(remote: Seq<char>, local: Seq<char>) -> bool {
    ||| lex_less(version_core(local), version_core(remote))
    ||| version_core(local) == version_core(remote) && pre_less(version_pre(local), version_pre(remote))
}

proof fn lemma_seq_lex_irreflexive<A>(a: Seq<A>, lt: spec_fn(A, A) -> bool)
    ensures
        !seq_lex(a, a, lt),
    decreases a.len(),
{
    if a.len() > 0 {
        lemma_seq_lex_irreflexive(a.drop_first(), lt);
    }
}

proof fn lemma_seq_lex_transitive<A>(a: Seq<A>, b: Seq<A>, c: Seq<A>, lt: spec_fn(A, A) -> bool)
    requires
        strict_order(lt),
        seq_lex(a, b, lt),
        seq_lex(b, c, lt),
    ensures
        seq_lex(a, c, lt),
    decreases a.len(),
{
    if a.len() > 0 {
        if a[0] == b[0] && b[0] == c[0] {
            lemma_seq_lex_transitive(a.drop_first(), b.drop_first(), c.drop_first(), lt);
        } else if a[0] != b[0] && b[0] != c[0] {
            assert(lt(a[0], b[0]) && lt(b[0], c[0]));
            assert(lt(a[0], c[0]));
            if a[0] == c[0] {
                assert(!lt(a[0], a[0]));
            }
        }
    }
}

proof fn lemma_seq_lex_asymmetric<A>(a: Seq<A>, b: Seq<A>, lt: spec_fn(A, A) -> bool)
    requires
        strict_order(lt),
    ensures
        !(seq_lex(a, b, lt) && seq_lex(b, a, lt)),
{
    if seq_lex(a, b, lt) && seq_lex(b, a, lt) {
        lemma_seq_lex_transitive(a, b, a, lt);
        lemma_seq_lex_irreflexive(a, lt);
    }
}

proof fn lemma_char_order()
    ensures
        strict_order(char_lt()),
{
}

proof fn lemma_ident_order()
    ensures
        strict_order(ident_order()),
{
    lemma_char_order();
    assert forall|x: Ident| !#[trigger] ident_order()(x, x) by {
        if let Ident::Text(t) = x {
            lemma_seq_lex_irreflexive(t, char_lt());
        }
    }
    assert forall|x: Ident, y: Ident, z: Ident|
        #![trigger ident_order()(x, y), ident_order()(y, z)]
        ident_order()(x, y) && ident_order()(y, z) implies ident_order()(x, z) by {
        if let (Ident::Text(a), Ident::Text(b), Ident::Text(c)) = (x, y, z) {
            lemma_seq_lex_transitive(a, b, c, char_lt());
        }
    }
}

proof fn lemma_pre_less_strict(a: Option<Seq<Ident>>, b: Option<Seq<Ident>>, c: Option<Seq<Ident>>)
    ensures
        !pre_less(a, a),
        !(pre_less(a, b) && pre_less(b, a)),
        pre_less(a, b) && pre_less(b, c) ==> pre_less(a, c),
{
    lemma_ident_order();
    if let Some(x) = a {
        lemma_seq_lex_irreflexive(x, ident_order());
        if let Some(y) = b {
            lemma_seq_lex_asymmetric(x, y, ident_order());
            if let Some(z) = c {
                if pre_less(a, b) && pre_less(b, c) {
                    lemma_seq_lex_transitive(x, y, z, ident_order());
                }
            }
        }
    }
}

proof fn lemma_pieces_nonempty(s: Seq<char>)
    ensures
        dot_pieces(s).len() >= 1,
    decreases s.len(),
{
    if s.len() > 0 {
        lemma_pieces_nonempty(s.drop_last());
    }
}

proof fn lemma_parsed_push(pieces: Seq<Seq<char>>, p: Seq<char>)
    ensures
        parsed_pieces(pieces.push(p)) == match parse_u64(p) {
            Some(v) => parsed_pieces(pieces).push(v),
            None => parsed_pieces(pieces),
        },
{
    assert(pieces.push(p).drop_last() =~= pieces);
}

/// Parsing state of the piece being read: whether it began with `+`, whether its
/// body so far is all digits, and its value (while it fits).
pub open spec fn piece_state(cur: Seq<char>, plus: bool, digits: bool, body_len: nat, fits: bool, value: u64) -> bool {
    let body = piece_body(cur);
    &&& plus == (cur.len() > 0 && cur[0] == '+')
    &&& body_len == body.len()
    &&& digits == (forall|i: int| 0 <= i < body.len() ==> is_digit(#[trigger] body[i]))
    &&& digits ==> (fits == (digits_value(body) <= u64::MAX))
    &&& digits && fits ==> value == digits_value(body)
}

proof fn lemma_digits_value_push(d: Seq<char>, c: char)
    ensures
        digits_value(d.push(c)) == digits_value(d) * 10 + ((c as u32) - ('0' as u32)) as nat,
{
    assert(d.push(c).drop_last() =~= d);
}

/// The version numbers of a version string.
fn version_parts(s: &str) -> (parts: Vec<u64>)
    ensures
        parts@ == version_numbers(s@),
{
    let n = s.unicode_len();
    let mut parts: Vec<u64> = Vec::new();
    let mut cur_len: usize = 0;
    let mut plus = false;
    let mut digits = true;
    let mut body_len: usize = 0;
    let mut fits = true;
    let mut value: u64 = 0;
    let ghost mut cur: Seq<char> = Seq::empty();
    let mut i: usize = 0;
    assert(s@.take(0) =~= Seq::<char>::empty());
    while i < n
        invariant
            0 <= i <= n,
            n == s@.len(),
            dot_pieces(s@.take(i as int)).len() >= 1,
            cur == dot_pieces(s@.take(i as int)).last(),
            parts@ == parsed_pieces(dot_pieces(s@.take(i as int)).drop_last()),
            cur_len == cur.len(),
            cur_len <= i,
            piece_state(cur, plus, digits, body_len as nat, fits, value),
        decreases n - i,
    {
        let c = s.get_char(i);
        let ghost prev = dot_pieces(s@.take(i as int));
        proof {
            assert(s@.take(i + 1).drop_last() =~= s@.take(i as int));
            assert(s@.take(i + 1).last() == c);
            lemma_pieces_nonempty(s@.take(i + 1));
        }
        if c == '.' {
            // the piece ends here
            let ghost p = cur;
            let ok = digits && fits && body_len > 0;
            proof {
                assert(prev.push(Seq::empty()).drop_last() =~= prev);
                assert(prev =~= prev.drop_last().push(p));
                lemma_parsed_push(prev.drop_last(), p);
            }
            if ok {
                parts.push(value);
            }
            cur_len = 0;
            plus = false;
            digits = true;
            body_len = 0;
            fits = true;
            value = 0;
            proof {
                cur = Seq::empty();
            }
        } else {
            let ghost old_cur = cur;
            proof {
                cur = cur.push(c);
                assert(prev.update(prev.len() - 1, prev.last().push(c)).drop_last() =~= prev.drop_last());
            }
            if cur_len == 0 && c == '+' {
                plus = true;
                proof {
                    assert(piece_body(cur) =~= Seq::<char>::empty());
                }
            } else {
                proof {
                    assert(piece_body(cur) =~= piece_body(old_cur).push(c));
                    lemma_digits_value_push(piece_body(old_cur), c);
                }
                let is_d = '0' <= c && c <= '9';
                let ghost ob = piece_body(old_cur);
                if digits && is_d {
                    let d: u64 = (c as u32 - '0' as u32) as u64;
                    assert(d == ((c as u32) - ('0' as u32)) as nat);
                    if fits {
                        if value <= (u64::MAX - d) / 10 {
                            assert(value * 10 + d <= u64::MAX) by (nonlinear_arith)
                                requires
                                    value <= (u64::MAX - d) / 10,
                                    d <= 9,
                            ;
                            value = value * 10 + d;
                        } else {
                            assert(value * 10 + d > u64::MAX) by (nonlinear_arith)
                                requires
                                    value > (u64::MAX - d) / 10,
                                    d <= 9,
                            ;
                            fits = false;
                        }
                    } else {
                        assert(digits_value(ob) * 10 + d > u64::MAX) by (nonlinear_arith)
                            requires
                                digits_value(ob) > u64::MAX,
                        ;
                    }
                    proof {
                        assert forall|j: int| 0 <= j < piece_body(cur).len() implies is_digit(#[trigger] piece_body(cur)[j]) by {
                            if j < ob.len() {
                                assert(piece_body(cur)[j] == ob[j]);
                            }
                        }
                    }
                } else {
                    digits = false;
                    proof {
                        if !is_d {
                            assert(piece_body(cur)[piece_body(cur).len() - 1] == c);
                        } else {
                            let j = choose|j: int| 0 <= j < ob.len() && !is_digit(#[trigger] ob[j]);
                            assert(piece_body(cur)[j] == ob[j]);
                        }
                    }
                }
                body_len += 1;
            }
            cur_len += 1;
        }
        i += 1;
    }
    proof {
        assert(s@.take(n as int) =~= s@);
        let ps = dot_pieces(s@);
        assert(ps =~= ps.drop_last().push(cur));
        lemma_parsed_push(ps.drop_last(), cur);
    }
    if digits && fits && body_len > 0 {
        parts.push(value);
    }
    parts
}

/// Lexicographic `a < b`.
fn lex_less_exec(a: &Vec<u64>, b: &Vec<u64>) -> (r: bool)
    ensures
        r == lex_less(a@, b@),
{
    let mut i: usize = 0;
    assert(a@.skip(0) =~= a@);
    assert(b@.skip(0) =~= b@);
    while i < a.len() && i < b.len()
        invariant
            0 <= i <= a@.len(),
            i <= b@.len(),
            lex_less(a@, b@) == lex_less(a@.skip(i as int), b@.skip(i as int)),
        decreases a@.len() - i,
    {
        proof {
            assert(a@.skip(i as int).drop_first() =~= a@.skip(i + 1));
            assert(b@.skip(i as int).drop_first() =~= b@.skip(i + 1));
        }
        if a[i] != b[i] {
            return a[i] < b[i];
        }
        i += 1;
    }
    i < b.len()
}

proof fn lemma_split_at(s: Seq<char>, c: char, k: int)
    requires
        0 <= k <= s.len(),
        forall|t: int| 0 <= t < k ==> s[t] != c,
        k < s.len() ==> s[k] == c,
    ensures
        before_char(s, c) == s.take(k),
        after_char(s, c) == if k < s.len() {
            Some(s.skip(k + 1))
        } else {
            None::<Seq<char>>
        },
    decreases k,
{
    if k == 0 {
        if s.len() > 0 {
            assert(s.drop_first() =~= s.skip(1));
        }
        assert(s.take(0) =~= Seq::<char>::empty());
        if s.len() == 0 {
            assert(s =~= Seq::<char>::empty());
        }
    } else {
        let t = s.drop_first();
        assert forall|u: int| 0 <= u < k - 1 implies t[u] != c by {
            assert(t[u] == s[u + 1]);
        }
        lemma_split_at(t, c, k - 1);
        assert(seq![s[0]] + t.take(k - 1) =~= s.take(k));
        if k < s.len() {
            assert(t.skip(k) =~= s.skip(k + 1));
        }
    }
}

/// The part of `s` before the first `c`, and the part after it if there is one.
fn split_first<'a>(s: &'a str, c: char) -> (r: (&'a str, Option<&'a str>))
    ensures
        r.0@ == before_char(s@, c),
        match after_char(s@, c) {
            Some(a) => r.1 is Some && r.1->0@ == a,
            None => r.1 is None,
        },
{
    let n = s.unicode_len();
    let mut k: usize = 0;
    while k < n && s.get_char(k) != c
        invariant
            0 <= k <= n,
            n == s@.len(),
            forall|t: int| 0 <= t < k ==> s@[t] != c,
        decreases n - k,
    {
        k += 1;
    }
    proof {
        lemma_split_at(s@, c, k as int);
    }
    let before = s.substring_char(0, k);
    assert(before@ =~= s@.take(k as int));
    if k < n {
        let after = s.substring_char(k + 1, n);
        assert(after@ =~= s@.skip(k + 1));
        (before, Some(after))
    } else {
        (before, None)
    }
}

proof fn lemma_pieces_without_dot(p: Seq<char>)
    requires
        forall|t: int| 0 <= t < p.len() ==> p[t] != '.',
    ensures
        dot_pieces(p) == seq![p],
    decreases p.len(),
{
    if p.len() > 0 {
        lemma_pieces_without_dot(p.drop_last());
        assert(p.drop_last().push(p.last()) =~= p);
        assert(seq![p.drop_last()].update(0, p) =~= seq![p]);
    } else {
        assert(p =~= Seq::<char>::empty());
    }
}

/// The number a piece without dots spells, as `str::parse::<u64>` reads it.
fn parse_piece(p: &str) -> (v: Option<u64>)
    requires
        forall|t: int| 0 <= t < p@.len() ==> p@[t] != '.',
    ensures
        v == parse_u64(p@),
{
    let parts = version_parts(p);
    proof {
        lemma_pieces_without_dot(p@);
        assert(seq![p@] =~= Seq::<Seq<char>>::empty().push(p@));
        lemma_parsed_push(Seq::empty(), p@);
    }
    if parts.len() == 1 {
        Some(parts[0])
    } else {
        None
    }
}

/// The views of a sequence of string slices.
pub open spec fn str_views(v: Seq<&str>) -> Seq<Seq<char>> {
    v.map_values(|x: &str| x@)
}

/// The dot-separated pieces of `s`.
fn split_dots<'a>(s: &'a str) -> (pieces: Vec<&'a str>)
    ensures
        str_views(pieces@) == dot_pieces(s@),
        forall|k: int, t: int| 0 <= k < pieces@.len() && 0 <= t < pieces@[k]@.len() ==> (#[trigger] pieces@[k]@[t]) != '.',
{
    let n = s.unicode_len();
    let mut pieces: Vec<&'a str> = Vec::new();
    let mut start: usize = 0;
    let mut i: usize = 0;
    assert(s@.take(0) =~= Seq::<char>::empty());
    while i < n
        invariant
            0 <= start <= i <= n,
            n == s@.len(),
            str_views(pieces@).push(s@.subrange(start as int, i as int)) == dot_pieces(s@.take(i as int)),
            forall|k: int, t: int| 0 <= k < pieces@.len() && 0 <= t < pieces@[k]@.len() ==> (#[trigger] pieces@[k]@[t]) != '.',
            forall|t: int| start <= t < i ==> s@[t] != '.',
        decreases n - i,
    {
        let c = s.get_char(i);
        let ghost prev = dot_pieces(s@.take(i as int));
        proof {
            assert(s@.take(i + 1).drop_last() =~= s@.take(i as int));
            assert(s@.take(i + 1).last() == c);
        }
        if c == '.' {
            let piece = s.substring_char(start, i);
            let ghost before = pieces@;
            pieces.push(piece);
            proof {
                assert(str_views(pieces@) =~= str_views(before).push(piece@));
                assert(s@.subrange(i + 1, i + 1) =~= Seq::<char>::empty());
                assert forall|k: int, t: int| 0 <= k < pieces@.len() && 0 <= t < pieces@[k]@.len()
                    implies (#[trigger] pieces@[k]@[t]) != '.' by {
                    if k == before.len() {
                        assert(pieces@[k]@[t] == s@[start + t]);
                    }
                }
            }
            start = i + 1;
        } else {
            proof {
                assert(s@.subrange(start as int, i + 1) =~= s@.subrange(start as int, i as int).push(c));
                assert(str_views(pieces@).push(s@.subrange(start as int, i + 1)) =~= prev.update(
                    prev.len() - 1,
                    prev.last().push(c),
                ));
            }
        }
        i += 1;
    }
    let last = s.substring_char(start, n);
    let ghost before = pieces@;
    pieces.push(last);
    proof {
        assert(s@.take(n as int) =~= s@);
        assert(str_views(pieces@) =~= str_views(before).push(last@));
        assert forall|k: int, t: int| 0 <= k < pieces@.len() && 0 <= t < pieces@[k]@.len()
            implies (#[trigger] pieces@[k]@[t]) != '.' by {
            if k == before.len() {
                assert(pieces@[k]@[t] == s@[start + t]);
            }
        }
    }
    pieces
}

/// Whether two strings hold the same characters.
fn same_chars(a: &str, b: &str) -> (r: bool)
    ensures
        r == (a@ == b@),
{
    let n = a.unicode_len();
    if n != b.unicode_len() {
        return false;
    }
    let mut i: usize = 0;
    while i < n
        invariant
            0 <= i <= n,
            n == a@.len(),
            n == b@.len(),
            forall|t: int| 0 <= t < i ==> a@[t] == b@[t],
        decreases n - i,
    {
        if a.get_char(i) != b.get_char(i) {
            return false;
        }
        i += 1;
    }
    assert(a@ =~= b@);
    true
}

/// ASCII (code point) order of two strings, a proper prefix coming first.
fn text_less(a: &str, b: &str) -> (r: bool)
    ensures
        r == seq_lex(a@, b@, char_lt()),
{
    let n = a.unicode_len();
    let m = b.unicode_len();
    let mut i: usize = 0;
    assert(a@.skip(0) =~= a@);
    assert(b@.skip(0) =~= b@);
    while i < n && i < m
        invariant
            0 <= i <= n,
            i <= m,
            n == a@.len(),
            m == b@.len(),
            seq_lex(a@, b@, char_lt()) == seq_lex(a@.skip(i as int), b@.skip(i as int), char_lt()),
        decreases n - i,
    {
        proof {
            assert(a@.skip(i as int).drop_first() =~= a@.skip(i + 1));
            assert(b@.skip(i as int).drop_first() =~= b@.skip(i + 1));
        }
        let x = a.get_char(i);
        let y = b.get_char(i);
        if x != y {
            return (x as u32) < (y as u32);
        }
        i += 1;
    }
    i < m
}

/// The identifier values of pieces without dots.
fn piece_values(pieces: &Vec<&str>) -> (vals: Vec<Option<u64>>)
    requires
        forall|k: int, t: int| 0 <= k < pieces@.len() && 0 <= t < pieces@[k]@.len() ==> (#[trigger] pieces@[k]@[t]) != '.',
    ensures
        vals@.len() == pieces@.len(),
        forall|k: int| 0 <= k < pieces@.len() ==> (#[trigger] vals@[k]) == parse_u64(pieces@[k]@),
{
    let mut vals: Vec<Option<u64>> = Vec::new();
    let mut k: usize = 0;
    while k < pieces.len()
        invariant
            0 <= k <= pieces@.len(),
            vals@.len() == k,
            forall|j: int, t: int| 0 <= j < pieces@.len() && 0 <= t < pieces@[j]@.len() ==> (#[trigger] pieces@[j]@[t]) != '.',
            forall|j: int| 0 <= j < k ==> (#[trigger] vals@[j]) == parse_u64(pieces@[j]@),
        decreases pieces@.len() - k,
    {
        let p = pieces[k];
        assert forall|t: int| 0 <= t < p@.len() implies p@[t] != '.' by {
            assert(pieces@[k as int]@[t] != '.');
        }
        vals.push(parse_piece(p));
        k += 1;
    }
    vals
}

/// Pre-release precedence of two pre-release strings, identifier by identifier.
fn pre_release_less(a: &str, b: &str) -> (r: bool)
    ensures
        r == seq_lex(pre_idents(a@), pre_idents(b@), ident_order()),
{
    let pa = split_dots(a);
    let pb = split_dots(b);
    let va = piece_values(&pa);
    let vb = piece_values(&pb);
    let ghost ia = pre_idents(a@);
    let ghost ib = pre_idents(b@);
    assert(ia.len() == pa@.len());
    assert(ib.len() == pb@.len());
    assert forall|k: int| 0 <= k < pa@.len() implies #[trigger] ia[k] == ident_of(pa@[k]@) by {
        assert(str_views(pa@)[k] == pa@[k]@);
    }
    assert forall|k: int| 0 <= k < pb@.len() implies #[trigger] ib[k] == ident_of(pb@[k]@) by {
        assert(str_views(pb@)[k] == pb@[k]@);
    }
    let mut i: usize = 0;
    assert(ia.skip(0) =~= ia);
    assert(ib.skip(0) =~= ib);
    while i < pa.len() && i < pb.len()
        invariant
            0 <= i <= pa@.len(),
            i <= pb@.len(),
            ia.len() == pa@.len(),
            ib.len() == pb@.len(),
            va@.len() == pa@.len(),
            vb@.len() == pb@.len(),
            forall|k: int| 0 <= k < pa@.len() ==> (#[trigger] va@[k]) == parse_u64(pa@[k]@),
            forall|k: int| 0 <= k < pb@.len() ==> (#[trigger] vb@[k]) == parse_u64(pb@[k]@),
            forall|k: int| 0 <= k < pa@.len() ==> #[trigger] ia[k] == ident_of(pa@[k]@),
            forall|k: int| 0 <= k < pb@.len() ==> #[trigger] ib[k] == ident_of(pb@[k]@),
            ia == pre_idents(a@),
            ib == pre_idents(b@),
            seq_lex(ia, ib, ident_order()) == seq_lex(ia.skip(i as int), ib.skip(i as int), ident_order()),
        decreases pa@.len() - i,
    {
        proof {
            assert(ia.skip(i as int).drop_first() =~= ia.skip(i + 1));
            assert(ib.skip(i as int).drop_first() =~= ib.skip(i + 1));
            assert(ia.skip(i as int)[0] == ia[i as int]);
            assert(ib.skip(i as int)[0] == ib[i as int]);
        }
        let x = pa[i];
        let y = pb[i];
        let xv = va[i];
        let yv = vb[i];
        let ghost sa = ia.skip(i as int);
        let ghost sb = ib.skip(i as int);
        assert(sa[0] == ident_of(x@));
        assert(sb[0] == ident_of(y@));
        assert(sa[0] != sb[0] ==> seq_lex(sa, sb, ident_order()) == ident_lt(sa[0], sb[0]));
        match (xv, yv) {
            (Some(p), Some(q)) => {
                assert(sa[0] == Ident::Num(p) && sb[0] == Ident::Num(q));
                if p != q {
                    return p < q;
                }
            },
            (Some(p), None) => {
                assert(sa[0] == Ident::Num(p) && sb[0] == Ident::Text(y@));
                return true;
            },
            (None, Some(q)) => {
                assert(sa[0] == Ident::Text(x@) && sb[0] == Ident::Num(q));
                return false;
            },
            (None, None) => {
                assert(sa[0] == Ident::Text(x@) && sb[0] == Ident::Text(y@));
                if !same_chars(x, y) {
                    return text_less(x, y);
                }
            },
        }
        i += 1;
    }
    i < pb.len()
}

/// Whether two number sequences are equal.
fn same_numbers(a: &Vec<u64>, b: &Vec<u64>) -> (r: bool)
    ensures
        r == (a@ == b@),
{
    if a.len() != b.len() {
        return false;
    }
    let mut i: usize = 0;
    while i < a.len()
        invariant
            0 <= i <= a@.len(),
            a@.len() == b@.len(),
            forall|t: int| 0 <= t < i ==> a@[t] == b@[t],
        decreases a@.len() - i,
    {
        if a[i] != b[i] {
            return false;
        }
        i += 1;
    }
    assert(a@ =~= b@);
    true
}

/// Returns true if `remote` is strictly newer than `local` by semantic-versioning
/// precedence: release numbers (the dot-separated numbers before the first `-`,
/// a missing number counting as older), then pre-release identifiers (a
/// pre-release comes before its release); build metadata after `+` is ignored.
pub fn is_newer(remote: &str, local: &str) -> (r: bool)
    ensures
        r == newer(remote@, local@),
{
    let (rb, _) = split_first(remote, '+');
    let (lb, _) = split_first(local, '+');
    let (rc, rp) = split_first(rb, '-');
    let (lc, lp) = split_first(lb, '-');
    let r = version_parts(rc);
    let l = version_parts(lc);
    if lex_less_exec(&l, &r) {
        return true;
    }
    if !same_numbers(&l, &r) {
        return false;
    }
    match (lp, rp) {
        (Some(a), Some(b)) => pre_release_less(a, b),
        (Some(_), None) => true,
        _ => false,
    }
}

/// `s` with every leading `v` removed.
pub open spec fn trim_leading_v(s: Seq<char>) -> Seq<char>
    decreases s.len(),
{
    if s.len() > 0 && s[0] == 'v' {
        trim_leading_v(s.drop_first())
    } else {
        s
    }
}

/// The update to offer for a release, given its tag name and page address as
/// published and the running version: none without a tag name or unless the tag,
/// without leading `v`s, is newer; the page address falls back to the releases page.
pub fn release_update(tag_name: Option<&str>, html_url: Option<&str>, current: &str) -> (u: Option<UpdateInfo>)
    ensures
        match tag_name {
            None => u is None,
            Some(tag) => {
                let t = trim_leading_v(tag@);
                if newer(t, current@) {
                    &&& u is Some
                    &&& u->0.latest_version@ == t
                    &&& u->0.current_version@ == current@
                    &&& u->0.release_url@ == match html_url {
                        Some(url) => url@,
                        None => "https://github.com/hopdad/RustBrush/releases"@,
                    }
                } else {
                    u is None
                }
            },
        },
{
    let tag = match tag_name {
        Some(t) => t,
        None => return None,
    };
    let n = tag.unicode_len();
    let mut k: usize = 0;
    assert(tag@.skip(0) =~= tag@);
    while k < n && tag.get_char(k) == 'v'
        invariant
            0 <= k <= n,
            n == tag@.len(),
            trim_leading_v(tag@) == trim_leading_v(tag@.skip(k as int)),
        decreases n - k,
    {
        proof {
            assert(tag@.skip(k as int).drop_first() =~= tag@.skip(k + 1));
        }
        k += 1;
    }
    let trimmed = tag.substring_char(k, n);
    proof {
        assert(trimmed@ =~= tag@.skip(k as int));
    }
    if is_newer(trimmed, current) {
        let release_url = match html_url {
            Some(url) => String::from_str(url),
            None => String::from_str("https://github.com/hopdad/RustBrush/releases"),
        };
        Some(UpdateInfo {
            latest_version: String::from_str(trimmed),
            current_version: String::from_str(current),
            release_url,
        })
    } else {
        None
    }
}

proof fn lemma_lex_irreflexive(a: Seq<u64>)
    ensures
        !lex_less(a, a),
    decreases a.len(),
{
    if a.len() > 0 {
        lemma_lex_irreflexive(a.drop_first());
    }
}

proof fn lemma_lex_asymmetric(a: Seq<u64>, b: Seq<u64>)
    ensures
        !(lex_less(a, b) && lex_less(b, a)),
    decreases a.len(),
{
    if a.len() > 0 && b.len() > 0 && a[0] == b[0] {
        lemma_lex_asymmetric(a.drop_first(), b.drop_first());
    }
}

proof fn lemma_lex_transitive(a: Seq<u64>, b: Seq<u64>, c: Seq<u64>)
    requires
        lex_less(a, b),
        lex_less(b, c),
    ensures
        lex_less(a, c),
    decreases a.len(),
{
    if a.len() > 0 && b.len() > 0 && c.len() > 0 && a[0] == b[0] && b[0] == c[0] {
        lemma_lex_transitive(a.drop_first(), b.drop_first(), c.drop_first());
    }
}

/// "Newer" is a strict order on versions: no version is newer than itself, two
/// versions are never each newer than the other, and newer than newer is newer.
pub proof fn newer_is_strict_order(a: Seq<char>, b: Seq<char>, c: Seq<char>)
    ensures
        !newer(a, a),
        !(newer(a, b) && newer(b, a)),
        newer(a, b) && newer(b, c) ==> newer(a, c),
{
    let (ca, cb, cc) = (version_core(a), version_core(b), version_core(c));
    lemma_lex_irreflexive(ca);
    lemma_lex_irreflexive(cb);
    lemma_lex_asymmetric(ca, cb);
    lemma_pre_less_strict(version_pre(c), version_pre(b), version_pre(a));
    lemma_pre_less_strict(version_pre(a), version_pre(b), version_pre(c));
    if newer(a, b) && newer(b, c) {
        if lex_less(cb, ca) && lex_less(cc, cb) {
            lemma_lex_transitive(cc, cb, ca);
        }
    }
}

} // verus!
