//! Text helpers for building violation messages: whitespace tests, decimal numerals, the
//! byte-wise ordering of strings, and joining.
use vstd::prelude::*;
use vstd::relations::{sorted_by, total_ordering};
use vstd::seq_lib::{group_to_multiset_ensures, lemma_sorted_unique};
use vstd::utf8::{encode_utf8, encode_utf8_decode_utf8};

verus! {

/// The Unicode `White_Space` characters, which `char::is_whitespace` accepts.
pub open spec fn is_whitespace(c: char) -> bool {
    let u = c as u32;
    ||| 0x9 <= u <= 0xD
    ||| u == 0x20
    ||| u == 0x85
    ||| u == 0xA0
    ||| u == 0x1680
    ||| 0x2000 <= u <= 0x200A
    ||| u == 0x2028
    ||| u == 0x2029
    ||| u == 0x202F
    ||| u == 0x205F
    ||| u == 0x3000
}

/// `s` is empty once surrounding whitespace is trimmed.
pub open spec fn is_blank(s: Seq<char>) -> bool {
    forall|i: int| 0 <= i < s.len() ==> is_whitespace(#[trigger] s[i])
}

/// Whether `c` is a whitespace character.
pub fn char_is_whitespace(c: char) -> (b: bool)
    ensures
        b == is_whitespace(c),
{
    let u = c as u32;
    (0x9 <= u && u <= 0xD) || u == 0x20 || u == 0x85 || u == 0xA0 || u == 0x1680 || (0x2000 <= u
        && u <= 0x200A) || u == 0x2028 || u == 0x2029 || u == 0x202F || u == 0x205F || u == 0x3000
}

/// Whether `s` trims to the empty string.
pub fn blank(s: &str) -> (b: bool)
    ensures
        b == is_blank(s@),
        b <==> forall|i: int| 0 <= i < s@.len() ==> is_whitespace(#[trigger] s@[i]),
{
    let len = s.unicode_len();
    let mut i: usize = 0;
    while i < len
        invariant
            len == s@.len(),
            0 <= i <= len,
            forall|j: int| 0 <= j < i ==> is_whitespace(#[trigger] s@[j]),
        decreases len - i,
    {
        let c = s.get_char(i);
        if !char_is_whitespace(c) {
            return false;
        }
        i = i + 1;
    }
    true
}

/// The decimal digit `d`.
pub open spec fn digit_char(d: int) -> char {
    if d == 0 {
        '0'
    } else if d == 1 {
        '1'
    } else if d == 2 {
        '2'
    } else if d == 3 {
        '3'
    } else if d == 4 {
        '4'
    } else if d == 5 {
        '5'
    } else if d == 6 {
        '6'
    } else if d == 7 {
        '7'
    } else if d == 8 {
        '8'
    } else {
        '9'
    }
}

/// The decimal numeral of `n`, without leading zeros.
pub open spec fn decimal(n: nat) -> Seq<char>
    decreases n,
{
    if n < 10 {
        seq![digit_char(n as int)]
    } else {
        decimal(n / 10) + seq![digit_char((n % 10) as int)]
    }
}

fn digit_str(d: u128) -> (s: &'static str)
    requires
        d < 10,
    ensures
        s@ == seq![digit_char(d as int)],
{
    proof {
        reveal_strlit("0");
        reveal_strlit("1");
        reveal_strlit("2");
        reveal_strlit("3");
        reveal_strlit("4");
        reveal_strlit("5");
        reveal_strlit("6");
        reveal_strlit("7");
        reveal_strlit("8");
        reveal_strlit("9");
    }
    if d == 0 {
        assert("0"@ =~= seq!['0']);
        "0"
    } else if d == 1 {
        assert("1"@ =~= seq!['1']);
        "1"
    } else if d == 2 {
        assert("2"@ =~= seq!['2']);
        "2"
    } else if d == 3 {
        assert("3"@ =~= seq!['3']);
        "3"
    } else if d == 4 {
        assert("4"@ =~= seq!['4']);
        "4"
    } else if d == 5 {
        assert("5"@ =~= seq!['5']);
        "5"
    } else if d == 6 {
        assert("6"@ =~= seq!['6']);
        "6"
    } else if d == 7 {
        assert("7"@ =~= seq!['7']);
        "7"
    } else if d == 8 {
        assert("8"@ =~= seq!['8']);
        "8"
    } else {
        assert("9"@ =~= seq!['9']);
        "9"
    }
}

/// The decimal numeral of `n`.
pub fn decimal_string(n: u128) -> (s: String)
    ensures
        s@ == decimal(n as nat),
    decreases n,
{
    if n < 10 {
        let mut s = String::new();
        s.append(digit_str(n));
        assert(s@ =~= decimal(n as nat));
        s
    } else {
        let mut s = decimal_string(n / 10);
        s.append(digit_str(n % 10));
        s
    }
}

/// Lexicographic order on byte strings.
pub open spec fn bytes_le(a: Seq<u8>, b: Seq<u8>) -> bool
    decreases a.len(),
{
    if a.len() == 0 {
        true
    } else if b.len() == 0 {
        false
    } else if a[0] != b[0] {
        a[0] < b[0]
    } else {
        bytes_le(a.drop_first(), b.drop_first())
    }
}

/// The order of `str`: lexicographic on the UTF-8 encodings.
pub open spec fn id_le(a: Seq<char>, b: Seq<char>) -> bool {
    bytes_le(encode_utf8(a), encode_utf8(b))
}

/// [`id_le`] as a relation.
pub open spec fn id_order() -> spec_fn(Seq<char>, Seq<char>) -> bool {
    |a: Seq<char>, b: Seq<char>| id_le(a, b)
}

proof fn lemma_bytes_le_reflexive(a: Seq<u8>)
    ensures
        bytes_le(a, a),
    decreases a.len(),
{
    if a.len() > 0 {
        lemma_bytes_le_reflexive(a.drop_first());
    }
}

proof fn lemma_bytes_le_antisymmetric(a: Seq<u8>, b: Seq<u8>)
    requires
        bytes_le(a, b),
        bytes_le(b, a),
    ensures
        a == b,
    decreases a.len(),
{
    if a.len() > 0 {
        lemma_bytes_le_antisymmetric(a.drop_first(), b.drop_first());
        assert(a =~= seq![a[0]] + a.drop_first());
        assert(b =~= seq![b[0]] + b.drop_first());
    } else {
        assert(b.len() == 0);
        assert(a =~= b);
    }
}

proof fn lemma_bytes_le_transitive(a: Seq<u8>, b: Seq<u8>, c: Seq<u8>)
    requires
        bytes_le(a, b),
        bytes_le(b, c),
    ensures
        bytes_le(a, c),
    decreases a.len(),
{
    if a.len() > 0 && b.len() > 0 && c.len() > 0 && a[0] == b[0] && b[0] == c[0] {
        lemma_bytes_le_transitive(a.drop_first(), b.drop_first(), c.drop_first());
    }
}

proof fn lemma_bytes_le_total(a: Seq<u8>, b: Seq<u8>)
    ensures
        bytes_le(a, b) || bytes_le(b, a),
    decreases a.len(),
{
    if a.len() > 0 && b.len() > 0 && a[0] == b[0] {
        lemma_bytes_le_total(a.drop_first(), b.drop_first());
    }
}

/// The order of `str` is a total order.
pub proof fn lemma_id_order_total()
    ensures
        total_ordering(id_order()),
{
    broadcast use encode_utf8_decode_utf8;

    let r = id_order();
    assert forall|a: Seq<char>| #[trigger] r(a, a) by {
        lemma_bytes_le_reflexive(encode_utf8(a));
    }
    assert forall|a: Seq<char>, b: Seq<char>| #[trigger] r(a, b) && #[trigger] r(b, a) implies a == b by {
        lemma_bytes_le_antisymmetric(encode_utf8(a), encode_utf8(b));
        assert(vstd::utf8::decode_utf8(encode_utf8(a)) == a);
        assert(vstd::utf8::decode_utf8(encode_utf8(b)) == b);
    }
    assert forall|a: Seq<char>, b: Seq<char>, c: Seq<char>|
        #[trigger] r(a, b) && #[trigger] r(b, c) implies r(a, c) by {
        lemma_bytes_le_transitive(encode_utf8(a), encode_utf8(b), encode_utf8(c));
    }
    assert forall|a: Seq<char>, b: Seq<char>| #[trigger] r(a, b) || #[trigger] r(b, a) by {
        lemma_bytes_le_total(encode_utf8(a), encode_utf8(b));
    }
}

/// Whether `a` sorts no later than `b`.
pub fn id_less_eq(a: &str, b: &str) -> (le: bool)
    ensures
        le == id_le(a@, b@),
{
    let x = a.as_bytes();
    let y = b.as_bytes();
    let mut i: usize = 0;
    assert(x@.skip(0) =~= x@);
    assert(y@.skip(0) =~= y@);
    while i < x.len() && i < y.len() && x[i] == y[i]
        invariant
            x@ == encode_utf8(a@),
            y@ == encode_utf8(b@),
            0 <= i <= x@.len(),
            i <= y@.len(),
            bytes_le(x@, y@) == bytes_le(x@.skip(i as int), y@.skip(i as int)),
        decreases x@.len() - i,
    {
        assert(x@.skip(i as int).drop_first() =~= x@.skip(i + 1));
        assert(y@.skip(i as int).drop_first() =~= y@.skip(i + 1));
        i = i + 1;
    }
    if i == x.len() {
        true
    } else if i == y.len() {
        false
    } else {
        x[i] < y[i]
    }
}

/// The views of a sequence of strings.
pub open spec fn views(v: Seq<String>) -> Seq<Seq<char>> {
    v.map_values(|s: String| s@)
}

/// `v` sorted by the order of `str`.
pub fn sort_strings(v: Vec<String>) -> (sorted: Vec<String>)
    ensures
        views(sorted@) == views(v@).sort_by(id_order()),
{
    broadcast use group_to_multiset_ensures;

    let ghost original = views(v@);
    let mut v = v;
    let mut sorted: Vec<String> = Vec::new();
    let ghost leq = id_order();
    proof {
        lemma_id_order_total();
    }
    while v.len() > 0
        invariant
            leq == id_order(),
            total_ordering(leq),
            views(v@) == original.take(views(v@).len() as int),
            views(v@).len() <= original.len(),
            sorted_by(views(sorted@), leq),
            views(sorted@).to_multiset() == original.skip(views(v@).len() as int).to_multiset(),
        decreases v@.len(),
    {
        let ghost before_v = views(v@);
        let ghost before_sorted = views(sorted@);
        let x = match v.pop() {
            Some(x) => x,
            None => String::new(),
        };
        assert(views(v@) =~= before_v.drop_last());
        assert(x@ == before_v.last());
        let mut p: usize = 0;
        while p < sorted.len() && id_less_eq(sorted[p].as_str(), x.as_str())
            invariant
                leq == id_order(),
                sorted@.len() == before_sorted.len(),
                views(sorted@) == before_sorted,
                0 <= p <= sorted@.len(),
                forall|k: int| 0 <= k < p ==> #[trigger] leq(before_sorted[k], x@),
            decreases sorted@.len() - p,
        {
            p = p + 1;
        }
        proof {
            if p < sorted@.len() {
                assert(!leq(before_sorted[p as int], x@));
                assert(leq(x@, before_sorted[p as int]));
            }
        }
        sorted.insert(p, x);
        proof {
            let s = views(sorted@);
            assert(s =~= before_sorted.insert(p as int, x@));
            assert forall|i: int, j: int| 0 <= i < j < s.len() implies #[trigger] leq(s[i], s[j]) by {
                if j < p {
                } else if j == p {
                } else if i < p {
                    assert(leq(s[i], x@));
                    assert(leq(x@, before_sorted[p as int]));
                    assert(leq(before_sorted[p as int], s[j]) || p as int == j - 1);
                } else if i == p {
                    assert(leq(x@, before_sorted[p as int]));
                    if j - 1 > p {
                        assert(leq(before_sorted[p as int], before_sorted[j - 1]));
                    }
                } else {
                    assert(leq(before_sorted[i - 1], before_sorted[j - 1]));
                }
            }
            let k = views(v@).len() as int;
            assert(original.skip(k) =~= seq![x@] + original.skip(k + 1));
            vstd::seq_lib::to_multiset_insert(before_sorted, p as int, x@);
            assert(original.skip(k).to_multiset() =~= original.skip(k + 1).to_multiset().insert(x@)) by {
                assert(seq![x@] + original.skip(k + 1) =~= original.skip(k + 1).insert(0, x@));
                vstd::seq_lib::to_multiset_insert(original.skip(k + 1), 0, x@);
            }
        }
    }
    proof {
        assert(original.skip(0) =~= original);
        original.lemma_sort_by_ensures(leq);
        lemma_sorted_unique(views(sorted@), original.sort_by(leq), leq);
    }
    sorted
}

/// The strings of `parts` separated by `sep`.
pub open spec fn join(parts: Seq<Seq<char>>, sep: Seq<char>) -> Seq<char>
    decreases parts.len(),
{
    if parts.len() == 0 {
        seq![]
    } else if parts.len() == 1 {
        parts[0]
    } else {
        join(parts.drop_last(), sep) + sep + parts.last()
    }
}

/// The strings of `parts` separated by `sep`.
pub fn join_strings(parts: &Vec<String>, sep: &str) -> (joined: String)
    ensures
        joined@ == join(views(parts@), sep@),
{
    let mut joined = String::new();
    let ghost whole = views(parts@);
    for i in 0..parts.len()
        invariant
            whole == views(parts@),
            joined@ == join(whole.take(i as int), sep@),
    {
        assert(whole.take(i + 1).drop_last() =~= whole.take(i as int));
        if i > 0 {
            joined.append(sep);
        }
        joined.append(parts[i].as_str());
        assert(joined@ =~= join(whole.take(i + 1), sep@));
    }
    assert(whole.take(parts@.len() as int) =~= whole);
    joined
}

} // verus!
