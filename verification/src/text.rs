//! Small verified helpers on strings and lists of strings.

use vstd::prelude::*;
use vstd::std_specs::iter::IteratorSpec;
use vstd::string::StringExecFns;

verus! {

/// The views of a sequence of strings.
pub open spec fn strs(v: Seq<String>) -> Seq<Seq<char>> {
    v.map_values(|s: String| s@)
}

/// The views of a list with one more string are the views of the list
/// with one more view.
pub proof fn lemma_strs_push(v: Seq<String>, s: String)
    ensures
        strs(v.push(s)) == strs(v).push(s@),
{
    assert(strs(v.push(s)) =~= strs(v).push(s@));
}

/// `String::push` appends the character to the end of the string.
pub assume_specification[ String::push ](s: &mut String, c: char)
    ensures
        final(s)@ == old(s)@.push(c),
;

/// The characters of `s`, in order.
pub fn chars_of(s: &str) -> (r: Vec<char>)
    ensures
        r@ == s@,
{
    broadcast use vstd::string::group_string_axioms;

    let mut r: Vec<char> = Vec::new();
    let mut it = s.chars();
    loop
        invariant
            it.obeys_prophetic_iter_laws(),
            it.decrease() is Some,
            r@ + it.remaining() == s@,
        ensures
            r@ == s@,
        decreases it.decrease()->0,
    {
        let ghost before = it.remaining();
        match it.next() {
            Some(c) => {
                r.push(c);
                assert(r@ + it.remaining() =~= r@.drop_last() + before);
            },
            None => {
                assert(r@ + it.remaining() =~= r@);
                break ;
            },
        }
    }
    r
}

/// The string made of the characters `cs[from..to]`.
pub fn string_of(cs: &Vec<char>, from: usize, to: usize) -> (r: String)
    requires
        from <= to <= cs.len(),
    ensures
        r@ == cs@.subrange(from as int, to as int),
{
    let mut r = String::new();
    let mut i: usize = from;
    while i < to
        invariant
            from <= i <= to <= cs.len(),
            r@ == cs@.subrange(from as int, i as int),
        decreases to - i,
    {
        r.push(cs[i]);
        assert(cs@.subrange(from as int, i as int + 1) =~= cs@.subrange(from as int, i as int).push(cs@[i as int]));
        i += 1;
    }
    r
}

/// A copy of a list of strings.
pub fn clone_strings(v: &Vec<String>) -> (r: Vec<String>)
    ensures
        strs(r@) == strs(v@),
{
    let mut r: Vec<String> = Vec::new();
    let n = v.len();
    let mut i: usize = 0;
    while i < n
        invariant
            n == v.len(),
            0 <= i <= n,
            r.len() == i,
            forall|j: int| 0 <= j < i ==> r@[j]@ == v@[j]@,
        decreases n - i,
    {
        r.push(v[i].clone());
        i += 1;
    }
    assert(strs(r@) =~= strs(v@));
    r
}

/// Whether `name` is among `names`.
pub fn contains_name(names: &Vec<String>, name: &str) -> (r: bool)
    ensures
        r == strs(names@).contains(name@),
{
    let n = names.len();
    let mut i: usize = 0;
    while i < n
        invariant
            n == names.len(),
            0 <= i <= n,
            forall|j: int| 0 <= j < i ==> strs(names@)[j] != name@,
        decreases n - i,
    {
        if str_eq(names[i].as_str(), name) {
            assert(strs(names@)[i as int] == name@);
            return true;
        }
        i += 1;
    }
    false
}

/// `acc` followed by the names of `more` that are new, each once, in their
/// order.
pub open spec fn union_names(acc: Seq<Seq<char>>, more: Seq<Seq<char>>) -> Seq<Seq<char>>
    decreases more.len(),
{
    if more.len() == 0 {
        acc
    } else if acc.contains(more[0]) {
        union_names(acc, more.drop_first())
    } else {
        union_names(acc.push(more[0]), more.drop_first())
    }
}

/// A name is in a union exactly when it is in one of the two parts.
pub proof fn lemma_union_names_contains(acc: Seq<Seq<char>>, more: Seq<Seq<char>>, x: Seq<char>)
    ensures
        union_names(acc, more).contains(x) <==> acc.contains(x) || more.contains(x),
    decreases more.len(),
{
    if more.len() == 0 {
    } else {
        let rest = more.drop_first();
        assert(more.contains(x) <==> more[0] == x || rest.contains(x)) by {
            if more.contains(x) {
                let i = choose|i: int| 0 <= i < more.len() && more[i] == x;
                if i != 0 {
                    assert(rest[i - 1] == x);
                }
            }
            if rest.contains(x) {
                let i = choose|i: int| 0 <= i < rest.len() && rest[i] == x;
                assert(more[i + 1] == x);
            }
        }
        if acc.contains(more[0]) {
            lemma_union_names_contains(acc, rest, x);
        } else {
            let next = acc.push(more[0]);
            lemma_union_names_contains(next, rest, x);
            assert(next.contains(x) <==> acc.contains(x) || more[0] == x) by {
                if next.contains(x) {
                    let i = choose|i: int| 0 <= i < next.len() && next[i] == x;
                    if i < acc.len() {
                        assert(acc[i] == x);
                    }
                }
                if acc.contains(x) {
                    let i = choose|i: int| 0 <= i < acc.len() && acc[i] == x;
                    assert(next[i] == x);
                }
                assert(next[acc.len() as int] == more[0]);
            }
        }
    }
}

/// A union has no name twice where its first part has none twice.
pub proof fn lemma_union_names_distinct(acc: Seq<Seq<char>>, more: Seq<Seq<char>>)
    requires
        acc.no_duplicates(),
    ensures
        union_names(acc, more).no_duplicates(),
    decreases more.len(),
{
    if more.len() == 0 {
    } else if acc.contains(more[0]) {
        lemma_union_names_distinct(acc, more.drop_first());
    } else {
        let next = acc.push(more[0]);
        assert(next.no_duplicates()) by {
            assert forall|i: int, j: int| 0 <= i < next.len() && 0 <= j < next.len() && i != j implies next[i] != next[j] by {
                if i < acc.len() && j < acc.len() {
                } else if i < acc.len() {
                    assert(acc.contains(next[i]));
                } else {
                    assert(acc.contains(next[j]));
                }
            }
        }
        lemma_union_names_distinct(next, more.drop_first());
    }
}

/// Adds to `acc` the names of `more` that it does not hold yet.
pub fn extend_unique(acc: &mut Vec<String>, more: &Vec<String>)
    ensures
        strs(final(acc)@) == union_names(strs(old(acc)@), strs(more@)),
{
    let n = more.len();
    let mut i: usize = 0;
    assert(strs(more@).skip(0) =~= strs(more@));
    while i < n
        invariant
            n == more.len(),
            0 <= i <= n,
            union_names(strs(acc@), strs(more@).skip(i as int)) == union_names(
                strs(old(acc)@),
                strs(more@),
            ),
        decreases n - i,
    {
        let ghost before = strs(acc@);
        let ghost tail = strs(more@).skip(i as int);
        assert(tail[0] == more@[i as int]@);
        assert(tail.drop_first() =~= strs(more@).skip(i as int + 1));
        if !contains_name(acc, more[i].as_str()) {
            acc.push(more[i].clone());
            assert(strs(acc@) =~= before.push(tail[0]));
        }
        i += 1;
    }
}

/// Whether two strings hold the same characters.
pub fn str_eq(a: &str, b: &str) -> (r: bool)
    ensures
        r == (a@ == b@),
{
    let x = a.to_owned();
    let y = b.to_owned();
    x == y
}

/// The order of names: that of `str`, by the scalar values of the
/// characters, a proper prefix before what it is a prefix of.
pub open spec fn name_lt(a: Seq<char>, b: Seq<char>) -> bool
    decreases a.len(),
{
    if b.len() == 0 {
        false
    } else if a.len() == 0 {
        true
    } else if a[0] != b[0] {
        (a[0] as int) < (b[0] as int)
    } else {
        name_lt(a.drop_first(), b.drop_first())
    }
}

/// Whether each of the names comes before the next, so that they ascend
/// and none occurs twice.
pub open spec fn names_ascend(names: Seq<Seq<char>>) -> bool {
    forall|a: int, b: int| 0 <= a < b < names.len() ==> name_lt(#[trigger] names[a], #[trigger] names[b])
}

/// Names that never go down and of which none occurs twice ascend.
pub proof fn lemma_names_ascend(names: Seq<Seq<char>>)
    requires
        names.no_duplicates(),
        forall|a: int, b: int|
            0 <= a < b < names.len() ==> !name_lt(#[trigger] names[b], #[trigger] names[a]),
    ensures
        names_ascend(names),
{
    assert forall|a: int, b: int| 0 <= a < b < names.len() implies name_lt(
        #[trigger] names[a],
        #[trigger] names[b],
    ) by {
        lemma_name_lt_total(names[a], names[b]);
    }
}

/// No name comes before itself.
pub proof fn lemma_name_lt_irreflexive(a: Seq<char>)
    ensures
        !name_lt(a, a),
    decreases a.len(),
{
    if a.len() > 0 {
        lemma_name_lt_irreflexive(a.drop_first());
    }
}

/// Of two different names one comes before the other.
pub proof fn lemma_name_lt_total(a: Seq<char>, b: Seq<char>)
    ensures
        name_lt(a, b) || name_lt(b, a) || a == b,
    decreases a.len(),
{
    if a.len() == 0 || b.len() == 0 {
        if a.len() == 0 && b.len() == 0 {
            assert(a =~= b);
        }
    } else if a[0] != b[0] {
    } else {
        lemma_name_lt_total(a.drop_first(), b.drop_first());
        if a.drop_first() == b.drop_first() {
            assert(a =~= seq![a[0]] + a.drop_first());
            assert(b =~= seq![b[0]] + b.drop_first());
        }
    }
}

/// The order of names is transitive.
pub proof fn lemma_name_lt_transitive(a: Seq<char>, b: Seq<char>, c: Seq<char>)
    requires
        name_lt(a, b),
        name_lt(b, c),
    ensures
        name_lt(a, c),
    decreases a.len(),
{
    if a.len() == 0 {
    } else if a[0] != b[0] {
        if b[0] == c[0] {
        }
    } else if b[0] != c[0] {
    } else {
        lemma_name_lt_transitive(a.drop_first(), b.drop_first(), c.drop_first());
    }
}

/// Whether `a` comes before `b` in the order of names.
pub fn name_before(a: &str, b: &str) -> (r: bool)
    ensures
        r == name_lt(a@, b@),
{
    let x = chars_of(a);
    let y = chars_of(b);
    let mut i: usize = 0;
    assert(x@.skip(0) =~= x@ && y@.skip(0) =~= y@);
    while i < x.len() && i < y.len()
        invariant
            x@ == a@,
            y@ == b@,
            i <= x.len(),
            i <= y.len(),
            name_lt(a@, b@) == name_lt(x@.skip(i as int), y@.skip(i as int)),
        decreases x.len() - i,
    {
        assert(x@.skip(i as int)[0] == x@[i as int]);
        assert(y@.skip(i as int)[0] == y@[i as int]);
        if x[i] != y[i] {
            return x[i] < y[i];
        }
        assert(x@.skip(i as int).drop_first() =~= x@.skip(i as int + 1));
        assert(y@.skip(i as int).drop_first() =~= y@.skip(i as int + 1));
        i += 1;
    }
    i < y.len()
}

/// Whether no name occurs twice in `names`.
pub fn all_distinct(names: &Vec<String>) -> (r: bool)
    ensures
        r == strs(names@).no_duplicates(),
{
    let n = names.len();
    let mut i: usize = 0;
    while i < n
        invariant
            n == names.len(),
            0 <= i <= n,
            forall|a: int, b: int| 0 <= a < b < i ==> strs(names@)[a] != strs(names@)[b],
        decreases n - i,
    {
        let mut j: usize = 0;
        while j < i
            invariant
                n == names.len(),
                0 <= j <= i < n,
                forall|a: int| 0 <= a < j ==> strs(names@)[a] != strs(names@)[i as int],
            decreases i - j,
        {
            if str_eq(names[j].as_str(), names[i].as_str()) {
                assert(strs(names@)[j as int] == strs(names@)[i as int]);
                return false;
            }
            j += 1;
        }
        i += 1;
    }
    true
}

/// The positions `order` with `i` put in before the first one whose name
/// comes after the name at `i`.
pub open spec fn insert_position(names: Seq<Seq<char>>, order: Seq<usize>, i: usize) -> Seq<usize>
    decreases order.len(),
{
    if order.len() == 0 {
        seq![i]
    } else if name_lt(names[i as int], names[order[0] as int]) {
        seq![i] + order
    } else {
        seq![order[0]] + insert_position(names, order.drop_first(), i)
    }
}

/// The positions of the first `n` names, ordered by the names at them;
/// positions of equal names keep their order.
pub open spec fn name_order(names: Seq<Seq<char>>, n: nat) -> Seq<usize>
    decreases n,
{
    if n == 0 {
        Seq::empty()
    } else {
        insert_position(names, name_order(names, (n - 1) as nat), (n - 1) as usize)
    }
}

/// Whether the names at the positions `order` never go down.
pub open spec fn ordered_by_name(names: Seq<Seq<char>>, order: Seq<usize>) -> bool {
    forall|a: int, b: int|
        0 <= a < b < order.len() ==> !name_lt(
            names[#[trigger] order[b] as int],
            names[#[trigger] order[a] as int],
        )
}

/// Putting a position in is an insertion at the place `k` up to which no
/// name comes after the new one.
proof fn lemma_insert_at(names: Seq<Seq<char>>, order: Seq<usize>, i: usize, k: int)
    requires
        0 <= k <= order.len(),
        forall|j: int| 0 <= j < k ==> !name_lt(names[i as int], names[#[trigger] order[j] as int]),
        k < order.len() ==> name_lt(names[i as int], names[order[k] as int]),
    ensures
        insert_position(names, order, i) == order.insert(k, i),
    decreases order.len(),
{
    if order.len() == 0 {
        assert(order.insert(k, i) =~= seq![i]);
    } else if k == 0 {
        assert(order.insert(0, i) =~= seq![i] + order);
    } else {
        let rest = order.drop_first();
        assert(!name_lt(names[i as int], names[order[0] as int]));
        assert forall|j: int| 0 <= j < k - 1 implies !name_lt(
            names[i as int],
            names[#[trigger] rest[j] as int],
        ) by {
            assert(rest[j] == order[j + 1]);
        }
        lemma_insert_at(names, rest, i, k - 1);
        assert(order.insert(k, i) =~= seq![order[0]] + rest.insert(k - 1, i));
    }
}

/// The place at which a position is put in.
proof fn lemma_insert_place(names: Seq<Seq<char>>, order: Seq<usize>, i: usize) -> (k: int)
    ensures
        0 <= k <= order.len(),
        forall|j: int| 0 <= j < k ==> !name_lt(names[i as int], names[#[trigger] order[j] as int]),
        k < order.len() ==> name_lt(names[i as int], names[order[k] as int]),
        insert_position(names, order, i) == order.insert(k, i),
    decreases order.len(),
{
    if order.len() == 0 {
        lemma_insert_at(names, order, i, 0);
        0
    } else if name_lt(names[i as int], names[order[0] as int]) {
        lemma_insert_at(names, order, i, 0);
        0
    } else {
        let rest = order.drop_first();
        let k = lemma_insert_place(names, rest, i);
        assert forall|j: int| 0 <= j < k + 1 implies !name_lt(
            names[i as int],
            names[#[trigger] order[j] as int],
        ) by {
            if j > 0 {
                assert(order[j] == rest[j - 1]);
            }
        }
        assert(k < rest.len() ==> rest[k] == order[k + 1]);
        lemma_insert_at(names, order, i, k + 1);
        k + 1
    }
}

/// The order of the first `n` names holds each position below `n` once
/// and nothing else, and the names at its positions never go down.
pub proof fn lemma_name_order(names: Seq<Seq<char>>, n: nat)
    requires
        n <= names.len(),
        n <= usize::MAX,
    ensures
        name_order(names, n).len() == n,
        forall|k: int| 0 <= k < n ==> #[trigger] name_order(names, n)[k] < n,
        name_order(names, n).no_duplicates(),
        forall|p: usize| p < n ==> name_order(names, n).contains(p),
        ordered_by_name(names, name_order(names, n)),
    decreases n,
{
    if n > 0 {
        let m = (n - 1) as nat;
        let i = m as usize;
        lemma_name_order(names, m);
        let before = name_order(names, m);
        let k = lemma_insert_place(names, before, i);
        let after = before.insert(k, i);
        assert(after == name_order(names, n));
        assert forall|a: int| 0 <= a < n implies #[trigger] after[a] < n by {
            if a < k {
                assert(after[a] == before[a]);
            } else if a > k {
                assert(after[a] == before[a - 1]);
            }
        }
        assert forall|a: int, b: int| 0 <= a < n && 0 <= b < n && a != b implies after[a]
            != after[b] by {
            let x = if a < k { a } else { a - 1 };
            let y = if b < k { b } else { b - 1 };
            if a != k {
                assert(after[a] == before[x]);
            }
            if b != k {
                assert(after[b] == before[y]);
            }
        }
        assert forall|p: usize| p < n implies after.contains(p) by {
            if p == i {
                assert(after[k] == p);
            } else {
                assert(p < m);
                assert(before.contains(p));
                let a = choose|a: int| 0 <= a < before.len() && before[a] == p;
                if a < k {
                    assert(after[a] == p);
                } else {
                    assert(after[a + 1] == p);
                }
            }
        }
        assert forall|a: int, b: int| 0 <= a < b < after.len() implies !name_lt(
            names[#[trigger] after[b] as int],
            names[#[trigger] after[a] as int],
        ) by {
            if b < k {
                assert(after[a] == before[a] && after[b] == before[b]);
            } else if b == k {
                assert(after[a] == before[a]);
            } else if a == k {
                assert(after[b] == before[b - 1]);
                if b - 1 > k {
                    assert(!name_lt(names[before[b - 1] as int], names[before[k] as int]));
                }
                lemma_name_lt_irreflexive(names[before[k] as int]);
                if name_lt(names[before[b - 1] as int], names[i as int]) {
                    lemma_name_lt_transitive(
                        names[before[b - 1] as int],
                        names[i as int],
                        names[before[k] as int],
                    );
                }
            } else if a > k {
                assert(after[a] == before[a - 1] && after[b] == before[b - 1]);
            } else {
                assert(after[a] == before[a] && after[b] == before[b - 1]);
            }
        }
    }
}

/// The positions of `names`, ordered by the names at them.
pub fn sort_positions(names: &Vec<String>) -> (order: Vec<usize>)
    ensures
        order@ == name_order(strs(names@), names.len() as nat),
{
    let n = names.len();
    let mut order: Vec<usize> = Vec::new();
    let mut i: usize = 0;
    while i < n
        invariant
            n == names.len(),
            0 <= i <= n,
            order.len() == i,
            forall|k: int| 0 <= k < i ==> #[trigger] order@[k] < i,
            order@ == name_order(strs(names@), i as nat),
        decreases n - i,
    {
        let mut k: usize = 0;
        while k < i && !name_before(names[i].as_str(), names[order[k]].as_str())
            invariant
                n == names.len(),
                0 <= k <= i < n,
                order.len() == i,
                forall|j: int| 0 <= j < i ==> #[trigger] order@[j] < i,
                forall|j: int|
                    0 <= j < k ==> !name_lt(
                        strs(names@)[i as int],
                        strs(names@)[#[trigger] order@[j] as int],
                    ),
            decreases i - k,
        {
            k += 1;
        }
        proof {
            lemma_insert_at(strs(names@), order@, i, k as int);
        }
        let ghost before = order@;
        order.insert(k, i);
        assert forall|a: int| 0 <= a < i + 1 implies #[trigger] order@[a] < i + 1 by {
            if a < k {
                assert(order@[a] == before[a]);
            } else if a > k {
                assert(order@[a] == before[a - 1]);
            }
        }
        i += 1;
    }
    order
}

/// The parts put together with one space between each two.
pub open spec fn join_space(parts: Seq<Seq<char>>) -> Seq<char>
    decreases parts.len(),
{
    if parts.len() == 0 {
        Seq::empty()
    } else if parts.len() == 1 {
        parts[0]
    } else {
        join_space(parts.drop_last()) + seq![' '] + parts.last()
    }
}

/// `n` spaces.
pub open spec fn spaces(n: nat) -> Seq<char> {
    Seq::new(n, |i: int| ' ')
}

/// The text followed by as many spaces as it lacks to be `width`
/// characters long.
pub open spec fn padded(s: Seq<char>, width: nat) -> Seq<char> {
    if s.len() >= width {
        s
    } else {
        s + spaces((width - s.len()) as nat)
    }
}

/// `s` followed by as many spaces as it lacks to be `width` characters
/// long.
pub fn pad_right(s: &str, width: usize) -> (r: String)
    ensures
        r@ == padded(s@, width as nat),
{
    let mut r = s.to_owned();
    let len = s.unicode_len();
    if len >= width {
        return r;
    }
    let mut k: usize = len;
    assert(r@ =~= s@ + spaces(0));
    while k < width
        invariant
            len == s@.len(),
            len <= k <= width,
            r@ == s@ + spaces((k - len) as nat),
        decreases width - k,
    {
        r.push(' ');
        assert(r@ =~= s@ + spaces((k + 1 - len) as nat));
        k += 1;
    }
    r
}

/// The value of a decimal digit.
pub open spec fn digit_value(c: char) -> Option<nat> {
    if '0' <= c && c <= '9' {
        Some((c as int - '0' as int) as nat)
    } else {
        None
    }
}

/// The number that a run of decimal digits stands for; nothing where a
/// character is no digit.
pub open spec fn digits_value(s: Seq<char>) -> Option<nat>
    decreases s.len(),
{
    if s.len() == 0 {
        Some(0)
    } else {
        match (digits_value(s.drop_last()), digit_value(s.last())) {
            (Some(a), Some(d)) => Some(a * 10 + d),
            _ => None,
        }
    }
}

/// The number that a text stands for as a `u32`: an optional `+`, then
/// one decimal digit or more, with a value that fits.
pub open spec fn parsed_u32(s: Seq<char>) -> Option<u32> {
    let body = if s.len() > 0 && s[0] == '+' {
        s.drop_first()
    } else {
        s
    };
    if body.len() == 0 {
        None
    } else {
        match digits_value(body) {
            Some(v) if v <= u32::MAX => Some(v as u32),
            _ => None,
        }
    }
}

/// Reads a `u32` from its decimal form.
#[verifier::loop_isolation(false)]
pub fn parse_u32(s: &str) -> (r: Option<u32>)
    ensures
        r == parsed_u32(s@),
{
    let cs = chars_of(s);
    let n = cs.len();
    let start: usize = if n > 0 && cs[0] == '+' {
        1
    } else {
        0
    };
    if start >= n {
        if n > 0 {
            assert(cs@.drop_first().len() == n - 1);
        }
        return None;
    }
    let ghost body = cs@.subrange(start as int, n as int);
    assert(body =~= if start == 1 {
        cs@.drop_first()
    } else {
        cs@
    });
    let mut acc: u64 = 0;
    let mut over = false;
    let mut i: usize = start;
    assert(body.take(0) =~= Seq::empty());
    while i < n
        invariant
            n == cs.len(),
            start <= i <= n,
            digits_value(body.take(i - start)) is Some,
            over ==> digits_value(body.take(i - start))->0 > u32::MAX,
            !over ==> acc == digits_value(body.take(i - start))->0 && acc <= u32::MAX,
        decreases n - i,
    {
        let c = cs[i];
        let ghost next = body.take(i - start + 1);
        assert(next.drop_last() =~= body.take(i - start));
        assert(next.last() == c);
        if !('0' <= c && c <= '9') {
            proof {
                assert(digit_value(c) is None);
                assert(digits_value(next) is None);
                lemma_digits_prefix(body, i - start + 1);
            }
            return None;
        }
        let d: u64 = (c as u32 - '0' as u32) as u64;
        if !over {
            acc = acc * 10 + d;
            if acc > u32::MAX as u64 {
                over = true;
            }
        }
        i += 1;
    }
    assert(body.take(n - start) =~= body);
    if over {
        None
    } else {
        Some(acc as u32)
    }
}

/// Where the first characters of a text are no run of digits, the text is
/// none.
proof fn lemma_digits_prefix(s: Seq<char>, n: int)
    requires
        0 <= n <= s.len(),
        digits_value(s.take(n)) is None,
    ensures
        digits_value(s) is None,
    decreases s.len() - n,
{
    if n < s.len() {
        assert(s.take(n + 1).drop_last() =~= s.take(n));
        lemma_digits_prefix(s, n + 1);
    } else {
        assert(s.take(n) =~= s);
    }
}

/// How many characters other than the line feed stand in a row from `i`
/// on.
pub open spec fn line_run(s: Seq<char>, i: int) -> nat
    decreases s.len() - i,
{
    if 0 <= i < s.len() && s[i] != '\n' {
        1 + line_run(s, i + 1)
    } else {
        0
    }
}

/// Where the line that starts at `i` ends: at the next line feed, or with
/// the text.
pub open spec fn line_end(s: Seq<char>, i: int) -> int {
    i + line_run(s, i)
}

/// The line that stands in `s` from `from` to `to`, where a line feed
/// follows exactly when `ended` is set: what stands there, without the
/// carriage return that may come before the line feed.
pub open spec fn line_text(s: Seq<char>, from: int, to: int, ended: bool) -> Seq<char> {
    if ended && from < to && s[to - 1] == '\r' {
        s.subrange(from, to - 1)
    } else {
        s.subrange(from, to)
    }
}

/// The lines of the text from position `i` on. A line ends with a line
/// feed, or with a carriage return and a line feed, which are no part of
/// it; the last line may end with the text.
pub open spec fn lines_from(s: Seq<char>, i: int) -> Seq<Seq<char>>
    decreases s.len() - i,
{
    if i < 0 || i >= s.len() {
        Seq::empty()
    } else {
        let end = line_end(s, i);
        if end < s.len() {
            seq![line_text(s, i, end, true)] + lines_from(s, end + 1)
        } else {
            seq![line_text(s, i, end, false)]
        }
    }
}

/// The lines of a text, each with `prefix` before it.
pub open spec fn prefixed_lines(prefix: Seq<char>, s: Seq<char>) -> Seq<Seq<char>> {
    lines_from(s, 0).map_values(|l: Seq<char>| prefix + l)
}

/// Adds to `out` each line of `text` with `prefix` before it.
pub fn push_lines(out: &mut Vec<String>, prefix: &str, text: &str)
    ensures
        strs(final(out)@) == strs(old(out)@) + prefixed_lines(prefix@, text@),
{
    let s = chars_of(text);
    let n = s.len();
    let ghost start = strs(out@);
    let mut i: usize = 0;
    assert(lines_from(s@, 0).take(0) =~= Seq::empty());
    assert(start + Seq::<Seq<char>>::empty() =~= start);
    let ghost mut done: Seq<Seq<char>> = Seq::empty();
    while i < n
        invariant
            n == s.len(),
            s@ == text@,
            0 <= i <= n,
            done + lines_from(s@, i as int) == lines_from(s@, 0),
            strs(out@) == start + done.map_values(|l: Seq<char>| prefix@ + l),
        decreases n - i,
    {
        let mut end: usize = i;
        while end < n && s[end] != '\n'
            invariant
                n == s.len(),
                i <= end <= n,
                i + line_run(s@, i as int) == end + line_run(s@, end as int),
            decreases n - end,
        {
            end += 1;
        }
        let ended = end < n;
        let stop: usize = if ended && i < end && s[end - 1] == '\r' {
            end - 1
        } else {
            end
        };
        let line = string_of(&s, i, stop);
        assert(line@ == line_text(s@, i as int, end as int, ended));
        let mut full = prefix.to_owned();
        full.append(line.as_str());
        proof {
            lemma_strs_push(out@, full);
            let before = done;
            done = done.push(line@);
            if ended {
                assert(done + lines_from(s@, end as int + 1) =~= before + lines_from(s@, i as int));
            } else {
                assert(done + lines_from(s@, end as int) =~= before + lines_from(s@, i as int));
            }
            assert(done.map_values(|l: Seq<char>| prefix@ + l) =~= before.map_values(
                |l: Seq<char>| prefix@ + l,
            ).push(prefix@ + line@));
        }
        out.push(full);
        assert(strs(out@) =~= start + done.map_values(|l: Seq<char>| prefix@ + l));
        if ended {
            i = end + 1;
        } else {
            i = end;
        }
    }
    assert(done =~= lines_from(s@, 0));
}

/// The decimal digit for a number below ten.
pub open spec fn digit_char(d: nat) -> char {
    if d == 0 {
        '0'
    } else if d == 1 {
        '1'
    } else if d == 2 {
        '2'
    } else if d == 3 {
        '3'
    } else if d == 4 {
        '4'
    } else if d == 5 {
        '5'
    } else if d == 6 {
        '6'
    } else if d == 7 {
        '7'
    } else if d == 8 {
        '8'
    } else {
        '9'
    }
}

/// A number written in base ten, without sign or leading zeros.
pub open spec fn decimal_digits(n: nat) -> Seq<char>
    decreases n,
{
    if n < 10 {
        seq![digit_char(n)]
    } else {
        decimal_digits(n / 10).push(digit_char(n % 10))
    }
}

fn digit(d: usize) -> (c: char)
    requires
        d < 10,
    ensures
        c == digit_char(d as nat),
{
    if d == 0 {
        '0'
    } else if d == 1 {
        '1'
    } else if d == 2 {
        '2'
    } else if d == 3 {
        '3'
    } else if d == 4 {
        '4'
    } else if d == 5 {
        '5'
    } else if d == 6 {
        '6'
    } else if d == 7 {
        '7'
    } else if d == 8 {
        '8'
    } else {
        '9'
    }
}

/// The reverse of the digits of `n`, lowest first.
spec fn digits_low_first(n: nat) -> Seq<char>
    decreases n,
{
    if n < 10 {
        seq![digit_char(n)]
    } else {
        seq![digit_char(n % 10)] + digits_low_first(n / 10)
    }
}

proof fn lemma_digits_reverse(n: nat)
    ensures
        digits_low_first(n).reverse() == decimal_digits(n),
    decreases n,
{
    if n < 10 {
        assert(seq![digit_char(n)].reverse() =~= seq![digit_char(n)]);
    } else {
        lemma_digits_reverse(n / 10);
        let low = seq![digit_char(n % 10)];
        let rest = digits_low_first(n / 10);
        assert((low + rest).reverse() =~= rest.reverse().push(digit_char(n % 10)));
    }
}

/// `n` written in base ten.
pub fn decimal(n: usize) -> (r: String)
    ensures
        r@ == decimal_digits(n as nat),
{
    let mut low_first: Vec<char> = Vec::new();
    let mut rest: usize = n;
    while rest >= 10
        invariant
            low_first@ + digits_low_first(rest as nat) == digits_low_first(n as nat),
        decreases rest,
    {
        let ghost before = low_first@;
        low_first.push(digit(rest % 10));
        assert(low_first@ + digits_low_first((rest / 10) as nat) =~= before + digits_low_first(
            rest as nat,
        ));
        rest = rest / 10;
    }
    low_first.push(digit(rest));
    assert(low_first@ =~= digits_low_first(n as nat));
    proof {
        lemma_digits_reverse(n as nat);
    }
    let mut r = String::new();
    let len = low_first.len();
    let mut i: usize = len;
    while i > 0
        invariant
            len == low_first.len(),
            0 <= i <= len,
            r@ == low_first@.reverse().take(len - i),
        decreases i,
    {
        i -= 1;
        r.push(low_first[i]);
        assert(low_first@.reverse().take(len - i) =~= low_first@.reverse().take(len - i - 1).push(
            low_first@[i as int],
        ));
    }
    assert(low_first@.reverse().take(len as int) =~= low_first@.reverse());
    r
}

} // verus!
