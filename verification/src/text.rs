//! Text rendering shared by the event protocol and the stats report:
//! decimal and hexadecimal digits, padding, and the few `String` operations
//! the renderers build on.
use vstd::prelude::*;

verus! {

/// The decimal digit for `d < 10`.
pub open spec fn digit(d: nat) -> char {
    if d == 0 {
        '0'
    } else if d == 1 {
        '1'
    } else if d == 2 {
        '2'
    } else if d == 3 {
        '3'
    } else if d == 4 {
        '4'
    } else if d == 5 {
        '5'
    } else if d == 6 {
        '6'
    } else if d == 7 {
        '7'
    } else if d == 8 {
        '8'
    } else {
        '9'
    }
}

/// The lower-case hexadecimal digit for `d < 16`.
pub open spec fn hex_digit(d: nat) -> char {
    if d < 10 {
        digit(d)
    } else if d == 10 {
        'a'
    } else if d == 11 {
        'b'
    } else if d == 12 {
        'c'
    } else if d == 13 {
        'd'
    } else if d == 14 {
        'e'
    } else {
        'f'
    }
}

/// `str(n)` for a natural number: its decimal digits, most significant
/// first, with no leading zeros.
pub open spec fn digits(n: nat) -> Seq<char>
    decreases n,
{
    if n < 10 {
        seq![digit(n)]
    } else {
        digits(n / 10).push(digit(n % 10))
    }
}

/// `str(v)` for an integer.
pub open spec fn decimal(v: int) -> Seq<char> {
    if v < 0 {
        seq!['-'] + digits((-v) as nat)
    } else {
        digits(v as nat)
    }
}

proof fn lemma_digits_last(n: nat)
    ensures
        digits(n).len() > 0,
        digits(n).last() != '{',
    decreases n,
{
    if n >= 10 {
        lemma_digits_last(n / 10);
    }
}

/// A rendered number is never empty and never ends with an opening brace.
pub proof fn lemma_decimal_last(v: int)
    ensures
        decimal(v).len() > 0,
        decimal(v).last() != '{',
{
    if v < 0 {
        lemma_digits_last((-v) as nat);
        assert((seq!['-'] + digits((-v) as nat)).last() == digits((-v) as nat).last());
    } else {
        lemma_digits_last(v as nat);
    }
}

/// `n` spaces.
pub open spec fn spaces(n: nat) -> Seq<char>
    decreases n,
{
    if n == 0 {
        Seq::empty()
    } else {
        spaces((n - 1) as nat).push(' ')
    }
}

/// `format!("{s:w}")`: `s`, left-aligned and padded with spaces to `w`
/// characters; never truncated.
pub open spec fn padded(s: Seq<char>, w: nat) -> Seq<char> {
    if s.len() >= w {
        s
    } else {
        s + spaces((w - s.len()) as nat)
    }
}

/// `String::push`.
#[verifier::external_body]
pub fn push_char(out: &mut String, c: char)
    ensures
        final(out)@ == old(out)@.push(c),
{
    out.push(c);
}

pub fn digit_char(d: u64) -> (c: char)
    requires
        d < 10,
    ensures
        c == digit(d as nat),
{
    if d == 0 {
        '0'
    } else if d == 1 {
        '1'
    } else if d == 2 {
        '2'
    } else if d == 3 {
        '3'
    } else if d == 4 {
        '4'
    } else if d == 5 {
        '5'
    } else if d == 6 {
        '6'
    } else if d == 7 {
        '7'
    } else if d == 8 {
        '8'
    } else {
        '9'
    }
}

pub fn hex_char(d: u32) -> (c: char)
    requires
        d < 16,
    ensures
        c == hex_digit(d as nat),
{
    if d < 10 {
        digit_char(d as u64)
    } else if d == 10 {
        'a'
    } else if d == 11 {
        'b'
    } else if d == 12 {
        'c'
    } else if d == 13 {
        'd'
    } else if d == 14 {
        'e'
    } else {
        'f'
    }
}

/// Append `str(n)`.
pub fn push_digits(out: &mut String, n: u64)
    ensures
        final(out)@ == old(out)@ + digits(n as nat),
    decreases n,
{
    if n < 10 {
        push_char(out, digit_char(n));
    } else {
        push_digits(out, n / 10);
        push_char(out, digit_char(n % 10));
    }
}

/// Append `str(v)` for a signed value.
pub fn push_decimal(out: &mut String, v: i64)
    ensures
        final(out)@ == old(out)@ + decimal(v as int),
{
    if v < 0 {
        push_char(out, '-');
        let m = (0i128 - (v as i128)) as u64;
        push_digits(out, m);
    } else {
        push_digits(out, v as u64);
    }
}

/// Append `n` spaces.
pub fn push_spaces(out: &mut String, n: usize)
    ensures
        final(out)@ == old(out)@ + spaces(n as nat),
{
    let mut i: usize = 0;
    while i < n
        invariant
            i <= n,
            out@ == old(out)@ + spaces(i as nat),
        decreases n - i,
    {
        push_char(out, ' ');
        i = i + 1;
        assert(out@ =~= old(out)@ + spaces(i as nat));
    }
}

/// Append `s`, padded to `w` characters.
pub fn push_padded(out: &mut String, s: &str, w: usize)
    ensures
        final(out)@ == old(out)@ + padded(s@, w as nat),
{
    let n = s.unicode_len();
    out.append(s);
    if n < w {
        push_spaces(out, w - n);
        assert(out@ =~= old(out)@ + padded(s@, w as nat));
    } else {
        assert(out@ =~= old(out)@ + padded(s@, w as nat));
    }
}

/// Does `s` end with `c`?
pub fn ends_with_char(s: &String, c: char) -> (r: bool)
    ensures
        r == (s@.len() > 0 && s@.last() == c),
{
    let t = s.as_str();
    let n = t.unicode_len();
    if n == 0 {
        false
    } else {
        t.get_char(n - 1) == c
    }
}

/// `a == b`, character by character.
pub fn str_eq(a: &str, b: &str) -> (r: bool)
    ensures
        r == (a@ == b@),
{
    let n = a.unicode_len();
    let m = b.unicode_len();
    if n != m {
        return false;
    }
    let mut i: usize = 0;
    while i < n
        invariant
            i <= n,
            n == a@.len(),
            m == b@.len(),
            n == m,
            forall|k: int| 0 <= k < i ==> a@[k] == b@[k],
        decreases n - i,
    {
        if a.get_char(i) != b.get_char(i) {
            return false;
        }
        i = i + 1;
    }
    assert(a@ =~= b@);
    true
}

/// The quote Python's `repr` picks for a string: a single quote, unless
/// the string holds one and no double quote.
pub open spec fn repr_quote(s: Seq<char>) -> char {
    if s.contains('\'') && !s.contains('"') {
        '"'
    } else {
        '\''
    }
}

/// How `repr` writes one character inside quotes `q`. Control characters,
/// the C1 block, the no-break space and the soft hyphen become `\xhh`;
/// every other character is written as itself.
pub open spec fn repr_char(c: char, q: char) -> Seq<char> {
    if c == q || c == '\\' {
        seq!['\\', c]
    } else if c == '\t' {
        seq!['\\', 't']
    } else if c == '\n' {
        seq!['\\', 'n']
    } else if c == '\r' {
        seq!['\\', 'r']
    } else if (c as u32) < 0x20 || (0x7f <= (c as u32) && (c as u32) <= 0xa0) || (c as u32) == 0xad {
        seq!['\\', 'x', hex_digit((c as u32 / 16) as nat), hex_digit((c as u32 % 16) as nat)]
    } else {
        seq![c]
    }
}

pub open spec fn repr_chars(s: Seq<char>, q: char) -> Seq<char>
    decreases s.len(),
{
    if s.len() == 0 {
        Seq::empty()
    } else {
        repr_chars(s.drop_last(), q) + repr_char(s.last(), q)
    }
}

/// `repr(s)` for a string, as the engine's messages quote one.
pub open spec fn py_repr(s: Seq<char>) -> Seq<char> {
    let q = repr_quote(s);
    seq![q] + repr_chars(s, q) + seq![q]
}

/// Does `s` hold `c`?
pub fn has_char(s: &str, c: char) -> (r: bool)
    ensures
        r == s@.contains(c),
{
    let n = s.unicode_len();
    let mut i: usize = 0;
    while i < n
        invariant
            i <= n,
            n == s@.len(),
            forall|k: int| 0 <= k < i ==> s@[k] != c,
        decreases n - i,
    {
        if s.get_char(i) == c {
            assert(s@[i as int] == c);
            return true;
        }
        i = i + 1;
    }
    false
}

/// Append `repr(s)`.
pub fn push_repr(out: &mut String, s: &str)
    ensures
        final(out)@ == old(out)@ + py_repr(s@),
{
    let q = if has_char(s, '\'') && !has_char(s, '"') {
        '"'
    } else {
        '\''
    };
    push_char(out, q);
    let n = s.unicode_len();
    let mut i: usize = 0;
    while i < n
        invariant
            i <= n,
            n == s@.len(),
            q == repr_quote(s@),
            out@ == old(out)@ + seq![q] + repr_chars(s@.take(i as int), q),
        decreases n - i,
    {
        let c = s.get_char(i);
        let v = c as u32;
        let ghost before = out@;
        if c == q || c == '\\' {
            push_char(out, '\\');
            push_char(out, c);
        } else if c == '\t' {
            push_char(out, '\\');
            push_char(out, 't');
        } else if c == '\n' {
            push_char(out, '\\');
            push_char(out, 'n');
        } else if c == '\r' {
            push_char(out, '\\');
            push_char(out, 'r');
        } else if v < 0x20 || (0x7f <= v && v <= 0xa0) || v == 0xad {
            push_char(out, '\\');
            push_char(out, 'x');
            push_char(out, hex_char(v / 16));
            push_char(out, hex_char(v % 16));
        } else {
            push_char(out, c);
        }
        assert(out@ =~= before + repr_char(c, q));
        assert(s@.take(i + 1).drop_last() =~= s@.take(i as int));
        assert(out@ =~= old(out)@ + seq![q] + repr_chars(s@.take(i + 1), q));
        i = i + 1;
    }
    push_char(out, q);
    assert(s@.take(n as int) =~= s@);
    assert(out@ =~= old(out)@ + py_repr(s@));
}

/// An owned copy of `s`.
pub fn owned(s: &str) -> (r: String)
    ensures
        r@ == s@,
{
    s.to_owned()
}

/// `a` before `b`, comparing code points, a proper prefix first.
pub open spec fn text_less(a: Seq<char>, b: Seq<char>) -> bool
    decreases a.len(),
{
    if a.len() == 0 {
        b.len() > 0
    } else if b.len() == 0 {
        false
    } else if a[0] != b[0] {
        a[0] < b[0]
    } else {
        text_less(a.drop_first(), b.drop_first())
    }
}

pub fn str_less(a: &str, b: &str) -> (r: bool)
    ensures
        r == text_less(a@, b@),
{
    let n = a.unicode_len();
    let m = b.unicode_len();
    let mut i: usize = 0;
    assert(a@.skip(0) =~= a@);
    assert(b@.skip(0) =~= b@);
    while i < n && i < m
        invariant
            i <= n,
            i <= m,
            n == a@.len(),
            m == b@.len(),
            forall|k: int| 0 <= k < i ==> a@[k] == b@[k],
            text_less(a@, b@) == text_less(a@.skip(i as int), b@.skip(i as int)),
        decreases n - i,
    {
        let x = a.get_char(i);
        let y = b.get_char(i);
        proof {
            assert(a@.skip(i as int)[0] == x);
            assert(b@.skip(i as int)[0] == y);
            assert(a@.skip(i as int).drop_first() =~= a@.skip(i + 1));
            assert(b@.skip(i as int).drop_first() =~= b@.skip(i + 1));
        }
        if x != y {
            return x < y;
        }
        i = i + 1;
    }
    proof {
        assert(a@.skip(i as int).len() == n - i);
        assert(b@.skip(i as int).len() == m - i);
    }
    i == n && i < m
}

pub proof fn lemma_text_irrefl(a: Seq<char>)
    ensures
        !text_less(a, a),
    decreases a.len(),
{
    if a.len() > 0 {
        lemma_text_irrefl(a.drop_first());
    }
}

pub proof fn lemma_text_trans(a: Seq<char>, b: Seq<char>, c: Seq<char>)
    requires
        text_less(a, b),
        text_less(b, c),
    ensures
        text_less(a, c),
    decreases a.len(),
{
    if a.len() > 0 && b.len() > 0 && c.len() > 0 && a[0] == b[0] && b[0] == c[0] {
        lemma_text_trans(a.drop_first(), b.drop_first(), c.drop_first());
    }
}

pub proof fn lemma_text_total(a: Seq<char>, b: Seq<char>)
    requires
        a != b,
    ensures
        text_less(a, b) || text_less(b, a),
    decreases a.len(),
{
    if a.len() == 0 && b.len() == 0 {
        assert(a =~= b);
    } else if a.len() > 0 && b.len() > 0 && a[0] == b[0] {
        if a.drop_first() == b.drop_first() {
            assert(a =~= seq![a[0]] + a.drop_first());
            assert(b =~= seq![b[0]] + b.drop_first());
        }
        lemma_text_total(a.drop_first(), b.drop_first());
    }
}

/// The views of a vector of strings.
pub open spec fn texts(v: Seq<String>) -> Seq<Seq<char>> {
    Seq::new(v.len(), |i: int| v[i]@)
}

/// Non-decreasing in code-point order.
pub open spec fn texts_sorted(s: Seq<Seq<char>>) -> bool {
    forall|i: int, j: int| 0 <= i < j < s.len() ==> !text_less(#[trigger] s[j], #[trigger] s[i])
}

/// `s` rearranged into code-point order: the one non-decreasing
/// rearrangement of it.
pub open spec fn sorted_texts(s: Seq<Seq<char>>) -> Seq<Seq<char>> {
    choose|r: Seq<Seq<char>>| texts_sorted(r) && r.to_multiset() == s.to_multiset()
}

/// `s` with each run of equal neighbours cut to one.
pub open spec fn dedup_runs(s: Seq<Seq<char>>) -> Seq<Seq<char>>
    decreases s.len(),
{
    if s.len() == 0 {
        s
    } else {
        let r = dedup_runs(s.drop_last());
        if r.len() > 0 && r.last() == s.last() {
            r
        } else {
            r.push(s.last())
        }
    }
}

/// `items` joined by `sep`.
pub open spec fn join_with(items: Seq<Seq<char>>, sep: Seq<char>) -> Seq<char>
    decreases items.len(),
{
    if items.len() == 0 {
        Seq::empty()
    } else if items.len() == 1 {
        items[0]
    } else {
        join_with(items.drop_last(), sep) + sep + items.last()
    }
}

/// Two non-decreasing rearrangements of the same texts are the same.
pub proof fn lemma_sorted_texts_unique(a: Seq<Seq<char>>, b: Seq<Seq<char>>)
    requires
        texts_sorted(a),
        texts_sorted(b),
        a.to_multiset() == b.to_multiset(),
    ensures
        a == b,
    decreases a.len(),
{
    broadcast use vstd::seq_lib::group_to_multiset_ensures;

    assert(a.len() == a.to_multiset().len());
    assert(b.len() == b.to_multiset().len());
    if a.len() > 0 {
        assert(a.to_multiset().count(a[0]) > 0);
        assert(b.contains(a[0]));
        assert(b.to_multiset().count(b[0]) > 0);
        assert(a.contains(b[0]));
        let ka = choose|k: int| 0 <= k < b.len() && b[k] == a[0];
        let kb = choose|k: int| 0 <= k < a.len() && a[k] == b[0];
        if ka > 0 {
            assert(!text_less(b[ka], b[0]));
        }
        if kb > 0 {
            assert(!text_less(a[kb], a[0]));
        }
        if a[0] != b[0] {
            lemma_text_total(a[0], b[0]);
        }
        assert(a[0] == b[0]);
        let a1 = a.remove(0);
        let b1 = b.remove(0);
        assert(a1.to_multiset() == b1.to_multiset());
        assert forall|i: int, j: int| 0 <= i < j < a1.len() implies !text_less(#[trigger] a1[j], #[trigger] a1[i]) by {
            assert(a1[i] == a[i + 1] && a1[j] == a[j + 1]);
        }
        assert forall|i: int, j: int| 0 <= i < j < b1.len() implies !text_less(#[trigger] b1[j], #[trigger] b1[i]) by {
            assert(b1[i] == b[i + 1] && b1[j] == b[j + 1]);
        }
        lemma_sorted_texts_unique(a1, b1);
        assert(a =~= a1.insert(0, a[0]));
        assert(b =~= b1.insert(0, b[0]));
    } else {
        assert(a =~= b);
    }
}

/// `v`, sorted into code-point order (an insertion sort, stable).
pub fn sort_strings(v: &Vec<String>) -> (r: Vec<String>)
    ensures
        texts(r@) == sorted_texts(texts(v@)),
        texts_sorted(texts(r@)),
        texts(r@).to_multiset() == texts(v@).to_multiset(),
{
    broadcast use vstd::seq_lib::group_to_multiset_ensures;

    let mut out: Vec<String> = Vec::new();
    let mut n: usize = 0;
    while n < v.len()
        invariant
            n <= v@.len(),
            texts_sorted(texts(out@)),
            texts(out@).to_multiset() == texts(v@).take(n as int).to_multiset(),
        decreases v@.len() - n,
    {
        let x = &v[n];
        let mut p: usize = 0;
        while p < out.len() && !str_less(x.as_str(), out[p].as_str())
            invariant
                p <= out@.len(),
                forall|q: int| 0 <= q < p ==> !text_less(x@, #[trigger] texts(out@)[q]),
            decreases out@.len() - p,
        {
            assert(texts(out@)[p as int] == out@[p as int]@);
            p = p + 1;
        }
        let ghost before = texts(out@);
        proof {
            if p < out@.len() {
                assert(before[p as int] == out@[p as int]@);
            }
        }
        let c = x.clone();
        assert(c@ == x@);
        out.insert(p, c);
        proof {
            let t = texts(out@);
            assert(t =~= before.insert(p as int, x@));
            assert(texts(v@)[n as int] == x@);
            vstd::seq_lib::to_multiset_insert(before, p as int, x@);
            vstd::seq_lib::to_multiset_build(texts(v@).take(n as int), x@);
            assert(texts(v@).take(n + 1) =~= texts(v@).take(n as int).push(x@));
            assert(texts(v@).take(n as int).push(x@).to_multiset() == texts(v@).take(n as int).to_multiset().insert(x@));
            assert forall|i: int, j: int| 0 <= i < j < t.len() implies !text_less(#[trigger] t[j], #[trigger] t[i]) by {
                if j == p {
                    assert(t[i] == before[i]);
                } else if i == p {
                    assert(t[j] == before[j - 1]);
                    assert(text_less(x@, before[p as int]));
                    if text_less(before[j - 1], x@) {
                        lemma_text_trans(before[j - 1], x@, before[p as int]);
                        if j - 1 == p {
                            lemma_text_irrefl(before[p as int]);
                        } else {
                            assert(!text_less(before[j - 1], before[p as int]));
                        }
                    }
                } else if i < p && j > p {
                    assert(t[i] == before[i] && t[j] == before[j - 1]);
                } else if j < p {
                    assert(t[i] == before[i] && t[j] == before[j]);
                } else {
                    assert(t[i] == before[i - 1] && t[j] == before[j - 1]);
                }
            }
            assert(texts(v@).take(n + 1) =~= texts(v@).take(n as int).push(x@));
        }
        n = n + 1;
    }
    proof {
        assert(texts(v@).take(v@.len() as int) =~= texts(v@));
        lemma_sorted_texts_unique(texts(out@), sorted_texts(texts(v@)));
    }
    out
}

/// `v` with each run of equal neighbours cut to one.
pub fn dedup_strings(v: Vec<String>) -> (r: Vec<String>)
    ensures
        texts(r@) == dedup_runs(texts(v@)),
{
    let mut out: Vec<String> = Vec::new();
    let mut n: usize = 0;
    while n < v.len()
        invariant
            n <= v@.len(),
            texts(out@) == dedup_runs(texts(v@).take(n as int)),
        decreases v@.len() - n,
    {
        let ghost before = texts(out@);
        let keep = if out.len() == 0 {
            true
        } else {
            let last = out.len() - 1;
            assert(before.last() == out@[last as int]@);
            !str_eq(out[last].as_str(), v[n].as_str())
        };
        assert(texts(v@).take(n + 1).drop_last() =~= texts(v@).take(n as int));
        if keep {
            out.push(v[n].clone());
            assert(texts(out@) =~= before.push(v@[n as int]@));
        }
        n = n + 1;
    }
    assert(texts(v@).take(v@.len() as int) =~= texts(v@));
    out
}

/// `v` joined by `sep`.
pub fn join_strings(v: &Vec<String>, sep: &str) -> (r: String)
    ensures
        r@ == join_with(texts(v@), sep@),
{
    let mut out = String::new();
    let mut n: usize = 0;
    while n < v.len()
        invariant
            n <= v@.len(),
            out@ == join_with(texts(v@).take(n as int), sep@),
        decreases v@.len() - n,
    {
        assert(texts(v@).take(n + 1).drop_last() =~= texts(v@).take(n as int));
        if n > 0 {
            out.append(sep);
        }
        out.append(v[n].as_str());
        proof {
            if n == 0 {
                assert(texts(v@).take(1)[0] == v@[0]@);
                assert(out@ =~= v@[0]@);
            } else {
                assert(texts(v@).take(n + 1).last() == v@[n as int]@);
            }
        }
        n = n + 1;
    }
    assert(texts(v@).take(v@.len() as int) =~= texts(v@));
    out
}

/// The distinct texts of `s`, in code-point order.
pub open spec fn set_sorted(s: Set<Seq<char>>) -> Seq<Seq<char>> {
    choose|r: Seq<Seq<char>>| texts_sorted(r) && r.no_duplicates() && r.to_set() == s
}

proof fn lemma_count_no_dup(s: Seq<Seq<char>>, x: Seq<char>)
    requires
        s.no_duplicates(),
    ensures
        s.to_multiset().count(x) == if s.contains(x) {
            1nat
        } else {
            0nat
        },
    decreases s.len(),
{
    broadcast use vstd::seq_lib::group_to_multiset_ensures;

    if s.len() > 0 {
        let t = s.drop_last();
        assert(t.no_duplicates());
        lemma_count_no_dup(t, x);
        assert(s =~= t.push(s.last()));
        vstd::seq_lib::to_multiset_build(t, s.last());
        if t.contains(x) {
            let i = choose|i: int| 0 <= i < t.len() && t[i] == x;
            assert(s[i] == x);
        }
        if s.contains(x) && !t.contains(x) {
            let i = choose|i: int| 0 <= i < s.len() && s[i] == x;
            if i < t.len() {
                assert(t[i] == x);
            }
        }
        if t.contains(x) && x == s.last() {
            let i = choose|i: int| 0 <= i < t.len() && t[i] == x;
            assert(s[i] == s[s.len() - 1]);
        }
    }
}

/// Sorting a vector of distinct texts gives the sorted set of them.
pub proof fn lemma_sorted_distinct(v: Seq<Seq<char>>, r: Seq<Seq<char>>)
    requires
        v.no_duplicates(),
        texts_sorted(r),
        r.to_multiset() == v.to_multiset(),
    ensures
        r == set_sorted(v.to_set()),
        r.no_duplicates(),
        r.to_set() == v.to_set(),
{
    broadcast use vstd::seq_lib::group_to_multiset_ensures;

    assert(r.no_duplicates()) by {
        assert forall|i: int, j: int| 0 <= i < r.len() && 0 <= j < r.len() && i != j implies r[i] != r[j] by {
            if r[i] == r[j] {
                lemma_count_no_dup(v, r[i]);
                let x = r[i];
                assert(r.remove(i).contains(x)) by {
                    if j < i {
                        assert(r.remove(i)[j] == x);
                    } else {
                        assert(r.remove(i)[j - 1] == x);
                    }
                }
                vstd::seq_lib::to_multiset_remove(r, i);
                assert(r.remove(i).to_multiset().count(x) > 0);
                assert(r.to_multiset().count(x) >= 2);
            }
        }
    }
    assert(r.to_set() =~= v.to_set()) by {
        assert forall|x: Seq<char>| r.to_set().contains(x) <==> v.to_set().contains(x) by {
            assert(r.contains(x) <==> r.to_multiset().count(x) > 0);
            assert(v.contains(x) <==> v.to_multiset().count(x) > 0);
        }
    }
    let c = set_sorted(v.to_set());
    assert(texts_sorted(c) && c.no_duplicates() && c.to_set() == v.to_set());
    assert(c.to_multiset() =~= r.to_multiset()) by {
        assert forall|x: Seq<char>| c.to_multiset().count(x) == r.to_multiset().count(x) by {
            lemma_count_no_dup(c, x);
            lemma_count_no_dup(r, x);
            assert(c.to_set().contains(x) == r.to_set().contains(x));
        }
    }
    lemma_sorted_texts_unique(r, c);
}

/// Does `v` hold the text `s`?
pub fn contains_text(v: &Vec<String>, s: &str) -> (r: bool)
    ensures
        r == texts(v@).contains(s@),
{
    let mut i: usize = 0;
    while i < v.len()
        invariant
            i <= v@.len(),
            forall|k: int| 0 <= k < i ==> texts(v@)[k] != s@,
        decreases v@.len() - i,
    {
        if str_eq(v[i].as_str(), s) {
            assert(texts(v@)[i as int] == s@);
            return true;
        }
        i = i + 1;
    }
    false
}

/// The distinct texts of `v`, sorted.
pub fn sort_distinct(v: &Vec<String>) -> (r: Vec<String>)
    requires
        texts(v@).no_duplicates(),
    ensures
        texts(r@) == set_sorted(texts(v@).to_set()),
        texts_sorted(texts(r@)),
        texts(r@).no_duplicates(),
        texts(r@).to_set() == texts(v@).to_set(),
{
    let r = sort_strings(v);
    proof {
        lemma_sorted_distinct(texts(v@), texts(r@));
    }
    r
}

/// Pushing a text adds it to the set; a new one keeps the texts distinct.
pub proof fn lemma_push_text(s: Seq<Seq<char>>, x: Seq<char>)
    ensures
        s.push(x).to_set() == s.to_set().insert(x),
        s.no_duplicates() && !s.contains(x) ==> s.push(x).no_duplicates(),
{
    s.lemma_push_to_set_commute(x);
    if s.no_duplicates() && !s.contains(x) {
        assert forall|i: int, j: int| 0 <= i < s.push(x).len() && 0 <= j < s.push(x).len() && i != j implies s.push(x)[i] != s.push(x)[j] by {
            if i == s.len() {
                assert(s[j] != x);
            } else if j == s.len() {
                assert(s[i] != x);
            }
        }
    }
}

pub proof fn lemma_push_contains<A>(s: Seq<A>, x: A, y: A)
    ensures
        s.push(x).contains(y) <==> (s.contains(y) || y == x),
{
    if s.contains(y) {
        let i = choose|i: int| 0 <= i < s.len() && s[i] == y;
        assert(s.push(x)[i] == y);
    }
    if s.push(x).contains(y) && y != x {
        let i = choose|i: int| 0 <= i < s.push(x).len() && s.push(x)[i] == y;
        assert(s[i] == y);
    }
    if y == x {
        assert(s.push(x)[s.len() as int] == y);
    }
}


pub proof fn lemma_concat_contains<A>(a: Seq<A>, b: Seq<A>, y: A)
    ensures
        (a + b).contains(y) <==> (a.contains(y) || b.contains(y)),
{
    if a.contains(y) {
        let i = choose|i: int| 0 <= i < a.len() && a[i] == y;
        assert((a + b)[i] == y);
    }
    if b.contains(y) {
        let i = choose|i: int| 0 <= i < b.len() && b[i] == y;
        assert((a + b)[a.len() + i] == y);
    }
    if (a + b).contains(y) {
        let i = choose|i: int| 0 <= i < (a + b).len() && (a + b)[i] == y;
        if i < a.len() {
            assert(a[i] == y);
        } else {
            assert(b[i - a.len()] == y);
        }
    }
}


/// `order` arranges the texts `ks` in code-point order, equal texts in
/// their original order.
pub open spec fn text_order(ks: Seq<Seq<char>>, order: Seq<int>) -> bool {
    &&& order.len() == ks.len()
    &&& forall|t: int| 0 <= t < order.len() ==> 0 <= #[trigger] order[t] < ks.len()
    &&& order.no_duplicates()
    &&& forall|t: int, u: int|
        0 <= t < u < order.len() ==> text_before(ks, #[trigger] order[t], #[trigger] order[u])
}

/// Text `a` of `ks` sorts before text `b`: smaller, or equal and earlier.
pub open spec fn text_before(ks: Seq<Seq<char>>, a: int, b: int) -> bool {
    text_less(ks[a], ks[b]) || (ks[a] == ks[b] && a < b)
}

/// The order that sorts `keys` by text, stably.
pub fn order_by_text(keys: &Vec<String>) -> (order: Vec<usize>)
    ensures
        text_order(texts(keys@), order@.map_values(|t: usize| t as int)),
{
    let ghost ks = texts(keys@);
    let mut order: Vec<usize> = Vec::new();
    let mut i: usize = 0;
    while i < keys.len()
        invariant
            ks == texts(keys@),
            i <= keys@.len(),
            order@.len() == i,
            forall|t: int| 0 <= t < i ==> (#[trigger] order@[t]) < i,
            forall|t: int, u: int| 0 <= t < u < i ==> text_before(ks, #[trigger] order@[t] as int, #[trigger] order@[u] as int),
        decreases keys@.len() - i,
    {
        // After every text no greater: those all came first.
        let mut p: usize = 0;
        while p < order.len() && !str_less(keys[i].as_str(), keys[order[p]].as_str())
            invariant
                ks == texts(keys@),
                i < keys@.len(),
                order@.len() == i,
                forall|t: int| 0 <= t < i ==> (#[trigger] order@[t]) < i,
                p <= order@.len(),
                forall|t: int| 0 <= t < p ==> !text_less(ks[i as int], ks[(#[trigger] order@[t]) as int]),
            decreases order@.len() - p,
        {
            p = p + 1;
        }
        let ghost before = order@;
        order.insert(p, i);
        proof {
            assert forall|t: int| 0 <= t < i + 1 implies (#[trigger] order@[t]) < i + 1 by {
                if t < p {
                    assert(order@[t] == before[t]);
                } else if t > p {
                    assert(order@[t] == before[t - 1]);
                }
            }
            assert forall|t: int, u: int| 0 <= t < u < i + 1 implies text_before(ks, #[trigger] order@[t] as int, #[trigger] order@[u] as int) by {
                let ki = ks[i as int];
                if u < p {
                    assert(order@[t] == before[t] && order@[u] == before[u]);
                } else if u == p {
                    assert(order@[t] == before[t]);
                    assert(before[t] < i);
                    let kt = ks[before[t] as int];
                    if !text_less(kt, ki) && kt != ki {
                        lemma_text_total(kt, ki);
                    }
                } else if t == p {
                    let v = before[u - 1] as int;
                    assert(order@[u] == before[u - 1]);
                    let kp = ks[before[p as int] as int];
                    assert(text_less(ki, kp));
                    if u - 1 > p {
                        assert(text_before(ks, before[p as int] as int, v));
                        if text_less(kp, ks[v]) {
                            lemma_text_trans(ki, kp, ks[v]);
                        }
                    }
                } else if t < p {
                    assert(order@[t] == before[t] && order@[u] == before[u - 1]);
                    if t < u - 1 {
                        assert(text_before(ks, before[t] as int, before[u - 1] as int));
                    } else {
                        assert(false);
                    }
                } else {
                    assert(order@[t] == before[t - 1] && order@[u] == before[u - 1]);
                    assert(text_before(ks, before[t - 1] as int, before[u - 1] as int));
                }
            }
        }
        i = i + 1;
    }
    let ghost o = order@.map_values(|t: usize| t as int);
    proof {
        assert forall|t: int| 0 <= t < o.len() implies 0 <= #[trigger] o[t] < ks.len() by {
            assert(order@[t] < i);
        }
        assert forall|a: int, b: int| 0 <= a < o.len() && 0 <= b < o.len() && a != b implies o[a] != o[b] by {
            if a < b {
                assert(text_before(ks, order@[a] as int, order@[b] as int));
            } else {
                assert(text_before(ks, order@[b] as int, order@[a] as int));
            }
            if o[a] == o[b] {
                lemma_text_irrefl(ks[o[a]]);
            }
        }
        assert forall|t: int, u: int| 0 <= t < u < o.len() implies text_before(ks, #[trigger] o[t], #[trigger] o[u]) by {
            assert(text_before(ks, order@[t] as int, order@[u] as int));
        }
    }
    order
}

} // verus!
