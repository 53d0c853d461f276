//! Scanners over a pattern: where the alternatives of the outermost level are,
//! where a group or a bracket class ends, how far a literal run goes, and the
//! expansion of a bracket class into the characters it accepts.
use vstd::prelude::*;
use crate::chars::{
    char_is_numeric, class_chars, class_chars_vec, digit_chars, digit_chars_vec, find_char, index_of,
    lower, lower_alpha_chars, lower_alpha_chars_vec, mixed_alpha_chars, mixed_alpha_chars_vec,
    chars_of, string_of, to_lower, numeric_char, upper_alpha_chars, upper_alpha_chars_vec,
};

verus! {

/// Nesting state while scanning a pattern for `(..)` and `[..]`.
pub struct Nesting {
    pub inside: nat,
    pub escaped: bool,
    pub big: bool,
}

pub open spec fn nesting_start() -> Nesting {
    Nesting { inside: 0, escaped: false, big: false }
}

/// One character of the scan; `None` where a closing bracket comes at depth 0.
pub open spec fn nesting_step(st: Nesting, c: char) -> Option<Nesting> {
    if c == '\\' || st.escaped {
        Some(Nesting { inside: st.inside, escaped: !st.escaped, big: st.big })
    } else if !st.big && c == '(' {
        Some(Nesting { inside: st.inside + 1, escaped: st.escaped, big: st.big })
    } else if !st.big && c == ')' {
        if st.inside == 0 {
            None
        } else {
            Some(Nesting { inside: (st.inside - 1) as nat, escaped: st.escaped, big: st.big })
        }
    } else if c == '[' {
        Some(Nesting { inside: st.inside + 1, escaped: st.escaped, big: true })
    } else if c == ']' {
        if st.inside == 0 {
            None
        } else {
            Some(Nesting { inside: (st.inside - 1) as nat, escaped: st.escaped, big: false })
        }
    } else {
        Some(st)
    }
}

/// Whether the character `c`, met in state `st`, is an alternative bar at depth 0.
pub open spec fn is_root_bar(st: Nesting, c: char) -> bool {
    !st.escaped && c == '|' && st.inside == 0
}

/// Positions (from `i` on) of the bars that separate the outermost alternatives,
/// or `None` when a closing bracket comes at depth 0.
pub open spec fn root_bars_from(s: Seq<char>, i: nat, st: Nesting) -> Option<Seq<int>>
    decreases s.len() - i,
{
    if i >= s.len() {
        Some(Seq::empty())
    } else {
        match nesting_step(st, s[i as int]) {
            None => None,
            Some(next) => match root_bars_from(s, i + 1, next) {
                None => None,
                Some(rest) => Some(
                    if is_root_bar(st, s[i as int]) {
                        seq![i as int] + rest
                    } else {
                        rest
                    },
                ),
            },
        }
    }
}

pub open spec fn root_bars(s: Seq<char>) -> Option<Seq<int>> {
    root_bars_from(s, 0, nesting_start())
}

pub open spec fn ints(v: Seq<usize>) -> Seq<int> {
    v.map_values(|x: usize| x as int)
}

/// `Some(a + b)` where `b` is `Some(b)`.
pub open spec fn prepend(a: Seq<int>, b: Option<Seq<int>>) -> Option<Seq<int>> {
    match b {
        None => None,
        Some(b) => Some(a + b),
    }
}

/// The bars found lie in `[i, s.len())`, rise strictly, and each is a `'|'`.
pub proof fn lemma_root_bars_from(s: Seq<char>, i: nat, st: Nesting)
    requires
        root_bars_from(s, i, st) is Some,
    ensures
        ({
            let b = root_bars_from(s, i, st).unwrap();
            &&& forall|k: int| 0 <= k < b.len() ==> i <= #[trigger] b[k] < s.len() && s[b[k]] == '|'
            &&& forall|k: int, l: int| 0 <= k < l < b.len() ==> #[trigger] b[k] < #[trigger] b[l]
        }),
    decreases s.len() - i,
{
    if i < s.len() {
        let next = nesting_step(st, s[i as int]).unwrap();
        lemma_root_bars_from(s, i + 1, next);
    }
}

/// The positions of the `'|'` that separate the outermost alternatives of `p`,
/// or `None` where a closing bracket has no opening one.
pub fn scan_root_bars(p: &Vec<char>) -> (r: Option<Vec<usize>>)
    ensures
        match root_bars(p@) {
            None => r is None,
            Some(b) => r matches Some(v) && ints(v@) == b,
        },
{
    let mut res: Vec<usize> = Vec::new();
    let mut inside: usize = 0;
    let mut escaped = false;
    let mut big = false;
    let mut i: usize = 0;
    while i < p.len()
        invariant
            i <= p.len(),
            inside <= i,
            root_bars(p@) == prepend(
                ints(res@),
                root_bars_from(p@, i as nat, Nesting { inside: inside as nat, escaped, big }),
            ),
        decreases p.len() - i,
    {
        let ghost st = Nesting { inside: inside as nat, escaped, big };
        let c = p[i];
        let bar = !escaped && c == '|' && inside == 0;
        if c == '\\' || escaped {
            escaped = !escaped;
        } else if !big && c == '(' {
            inside = inside + 1;
        } else if !big && c == ')' {
            if inside == 0 {
                return None;
            }
            inside = inside - 1;
        } else if c == '[' {
            big = true;
            inside = inside + 1;
        } else if c == ']' {
            big = false;
            if inside == 0 {
                return None;
            }
            inside = inside - 1;
        }
        let ghost old_res = res@;
        if bar {
            res.push(i);
        }
        proof {
            let next = Nesting { inside: inside as nat, escaped, big };
            assert(nesting_step(st, c) == Some(next));
            match root_bars_from(p@, (i + 1) as nat, next) {
                None => {},
                Some(rest) => {
                    if bar {
                        assert(ints(res@) == ints(old_res) + seq![i as int]);
                        assert(ints(old_res) + (seq![i as int] + rest) == ints(res@) + rest);
                    } else {
                        assert(res@ == old_res);
                    }
                },
            }
        }
        i = i + 1;
    }
    assert(ints(res@) + Seq::<int>::empty() == ints(res@));
    Some(res)
}

} // verus!

verus! {

/// Whether `c`, met in state `st`, is a `')'` that closes a group.
pub open spec fn closes_group(st: Nesting, c: char) -> bool {
    !(c == '\\' || st.escaped) && !st.big && c == ')'
}

/// From `i` on: the position of the `')'` that brings the depth back to 0
/// (`Some(Some(e))`), no such position (`Some(None)`), or a closing bracket at
/// depth 0 before that (`None`).
pub open spec fn group_end_from(s: Seq<char>, i: nat, st: Nesting) -> Option<Option<int>>
    decreases s.len() - i,
{
    if i >= s.len() {
        Some(None)
    } else {
        match nesting_step(st, s[i as int]) {
            None => None,
            Some(next) => if closes_group(st, s[i as int]) && next.inside == 0 {
                Some(Some(i as int))
            } else {
                group_end_from(s, i + 1, next)
            },
        }
    }
}

pub open spec fn group_end(s: Seq<char>) -> Option<Option<int>> {
    group_end_from(s, 0, nesting_start())
}

pub proof fn lemma_group_end_from(s: Seq<char>, i: nat, st: Nesting)
    requires
        group_end_from(s, i, st) matches Some(Some(_)),
    ensures
        ({
            let e = group_end_from(s, i, st).unwrap().unwrap();
            i <= e < s.len() && s[e] == ')'
        }),
    decreases s.len() - i,
{
    if i < s.len() {
        let next = nesting_step(st, s[i as int]).unwrap();
        if !(closes_group(st, s[i as int]) && next.inside == 0) {
            lemma_group_end_from(s, i + 1, next);
        }
    }
}

/// The position of the `')'` that closes the group opened at the start of `p`.
pub fn scan_group_end(p: &Vec<char>) -> (r: Option<Option<usize>>)
    ensures
        match group_end(p@) {
            None => r is None,
            Some(None) => r == Some(None::<usize>),
            Some(Some(e)) => r == Some(Some(e as usize)),
        },
{
    let mut inside: usize = 0;
    let mut escaped = false;
    let mut big = false;
    let mut i: usize = 0;
    while i < p.len()
        invariant
            i <= p.len(),
            inside <= i,
            group_end(p@) == group_end_from(p@, i as nat, Nesting { inside: inside as nat, escaped, big }),
        decreases p.len() - i,
    {
        let ghost st = Nesting { inside: inside as nat, escaped, big };
        let c = p[i];
        if c == '\\' || escaped {
            escaped = !escaped;
        } else if !big && c == '(' {
            inside = inside + 1;
        } else if !big && c == ')' {
            if inside == 0 {
                return None;
            }
            inside = inside - 1;
            if inside == 0 {
                return Some(Some(i));
            }
        } else if c == '[' {
            big = true;
            inside = inside + 1;
        } else if c == ']' {
            big = false;
            if inside == 0 {
                return None;
            }
            inside = inside - 1;
        }
        assert(nesting_step(st, c) == Some(Nesting { inside: inside as nat, escaped, big }));
        i = i + 1;
    }
    Some(None)
}

/// Nesting state while scanning a bracket class.
pub struct ClassNesting {
    pub inside: nat,
    pub escaped: bool,
}

/// From `i` on: the position of the `']'` that brings the bracket depth back to
/// 0, no such position, or a `']'` at depth 0 before that (`None`).
pub open spec fn class_end_from(s: Seq<char>, i: nat, st: ClassNesting) -> Option<Option<int>>
    decreases s.len() - i,
{
    if i >= s.len() {
        Some(None)
    } else {
        let c = s[i as int];
        if c == '\\' || st.escaped {
            class_end_from(s, i + 1, ClassNesting { inside: st.inside, escaped: !st.escaped })
        } else if c == '[' {
            class_end_from(s, i + 1, ClassNesting { inside: st.inside + 1, escaped: st.escaped })
        } else if c == ']' {
            if st.inside == 0 {
                None
            } else if st.inside == 1 {
                Some(Some(i as int))
            } else {
                class_end_from(
                    s,
                    i + 1,
                    ClassNesting { inside: (st.inside - 1) as nat, escaped: st.escaped },
                )
            }
        } else {
            class_end_from(s, i + 1, st)
        }
    }
}

pub open spec fn class_end(s: Seq<char>) -> Option<Option<int>> {
    class_end_from(s, 0, ClassNesting { inside: 0, escaped: false })
}

pub proof fn lemma_class_end_from(s: Seq<char>, i: nat, st: ClassNesting)
    requires
        class_end_from(s, i, st) matches Some(Some(_)),
    ensures
        ({
            let e = class_end_from(s, i, st).unwrap().unwrap();
            i <= e < s.len() && s[e] == ']'
        }),
    decreases s.len() - i,
{
    if i < s.len() {
        let c = s[i as int];
        if c == '\\' || st.escaped {
            lemma_class_end_from(s, i + 1, ClassNesting { inside: st.inside, escaped: !st.escaped });
        } else if c == '[' {
            lemma_class_end_from(s, i + 1, ClassNesting { inside: st.inside + 1, escaped: st.escaped });
        } else if c == ']' {
            if st.inside > 1 {
                lemma_class_end_from(
                    s,
                    i + 1,
                    ClassNesting { inside: (st.inside - 1) as nat, escaped: st.escaped },
                );
            }
        } else {
            lemma_class_end_from(s, i + 1, st);
        }
    }
}

/// The position of the `']'` that closes the class opened at the start of `p`.
pub fn scan_class_end(p: &Vec<char>) -> (r: Option<Option<usize>>)
    ensures
        match class_end(p@) {
            None => r is None,
            Some(None) => r == Some(None::<usize>),
            Some(Some(e)) => r == Some(Some(e as usize)),
        },
{
    let mut inside: usize = 0;
    let mut escaped = false;
    let mut i: usize = 0;
    while i < p.len()
        invariant
            i <= p.len(),
            inside <= i,
            class_end(p@) == class_end_from(p@, i as nat, ClassNesting { inside: inside as nat, escaped }),
        decreases p.len() - i,
    {
        let c = p[i];
        if c == '\\' || escaped {
            escaped = !escaped;
        } else if c == '[' {
            inside = inside + 1;
        } else if c == ']' {
            if inside == 0 {
                return None;
            }
            inside = inside - 1;
            if inside == 0 {
                return Some(Some(i));
            }
        }
        i = i + 1;
    }
    Some(None)
}

/// Whether `c` is one of the shorthand class letters `w`, `d`, `s` in either case.
pub open spec fn is_class_key(c: char) -> bool {
    lower(c) == 'w' || lower(c) == 'd' || lower(c) == 's'
}

/// Characters that end a literal run: `(){}[]|^$.*+?`.
pub open spec fn is_special(c: char) -> bool {
    c == '(' || c == ')' || c == '{' || c == '}' || c == '[' || c == ']' || c == '|' || c == '^'
        || c == '$' || c == '.' || c == '*' || c == '+' || c == '?'
}

/// From `i` on (with `escaped` telling whether the previous character was an
/// unescaped `\`): where the literal run at the start of `s` ends. It ends at a
/// special character, at the letter of a shorthand class after `\`, just before
/// the `\` of a numeric back-reference, or at the end of `s`.
pub open spec fn static_end_from(s: Seq<char>, i: nat, escaped: bool) -> int
    decreases s.len() - i,
{
    if i >= s.len() {
        i as int
    } else {
        let c = s[i as int];
        if escaped {
            if is_class_key(c) {
                i as int
            } else if numeric_char(c) {
                i - 1
            } else {
                static_end_from(s, i + 1, false)
            }
        } else if c == '\\' {
            static_end_from(s, i + 1, true)
        } else if is_special(c) {
            i as int
        } else {
            static_end_from(s, i + 1, false)
        }
    }
}

pub open spec fn static_end(s: Seq<char>) -> int {
    static_end_from(s, 0, false)
}

pub proof fn lemma_static_end_from(s: Seq<char>, i: nat, escaped: bool)
    requires
        i <= s.len(),
        escaped ==> i >= 1,
    ensures
        0 <= static_end_from(s, i, escaped) <= s.len(),
        static_end_from(s, i, escaped) >= i - (if escaped { 1int } else { 0int }),
    decreases s.len() - i,
{
    if i < s.len() {
        let c = s[i as int];
        if escaped {
            if !is_class_key(c) && !numeric_char(c) {
                lemma_static_end_from(s, i + 1, false);
            }
        } else if c == '\\' {
            lemma_static_end_from(s, i + 1, true);
        } else if !is_special(c) {
            lemma_static_end_from(s, i + 1, false);
        }
    }
}

pub fn is_special_char(c: char) -> (r: bool)
    ensures
        r == is_special(c),
{
    c == '(' || c == ')' || c == '{' || c == '}' || c == '[' || c == ']' || c == '|' || c == '^'
        || c == '$' || c == '.' || c == '*' || c == '+' || c == '?'
}

pub fn is_class_key_char(c: char) -> (r: bool)
    ensures
        r == is_class_key(c),
{
    let l = to_lower(c);
    l == 'w' || l == 'd' || l == 's'
}

/// Length of the literal run at the start of `p`.
pub fn scan_static_end(p: &Vec<char>) -> (r: usize)
    ensures
        r == static_end(p@),
        r <= p@.len(),
{
    proof {
        lemma_static_end_from(p@, 0, false);
    }
    let mut escaped = false;
    let mut i: usize = 0;
    while i < p.len()
        invariant
            i <= p.len(),
            escaped ==> i >= 1,
            static_end(p@) == static_end_from(p@, i as nat, escaped),
        decreases p.len() - i,
    {
        let c = p[i];
        if escaped {
            if is_class_key_char(c) {
                return i;
            }
            if char_is_numeric(c) {
                return i - 1;
            }
            escaped = false;
        } else if c == '\\' {
            escaped = true;
        } else if is_special_char(c) {
            return i;
        }
        i = i + 1;
    }
    i
}

} // verus!

verus! {

/// The characters of `p` from the first `a` to the first `b`, both included;
/// `None` where either is missing or `b` comes more than one place before `a`.
pub open spec fn span(p: Seq<char>, a: char, b: char) -> Option<Seq<char>> {
    match (index_of(p, a), index_of(p, b)) {
        (Some(s), Some(e)) => if s <= e + 1 {
            Some(p.subrange(s, e + 1))
        } else {
            None
        },
        _ => None,
    }
}

/// What a range `prev-c` inside brackets stands for: digits when `c` is
/// numeric, else letters (lower-case when `prev` is not an upper-case letter,
/// upper then lower case from an upper-case `prev` to a lower-case `c`, upper
/// case otherwise); `None` where the range cannot be read.
pub open spec fn range_chars(prev: char, c: char) -> Option<Seq<char>> {
    if numeric_char(c) {
        span(digit_chars(), prev, c)
    } else if lower(prev) == prev {
        if lower(c) != c {
            None
        } else {
            span(lower_alpha_chars(), prev, c)
        }
    } else if lower(c) == c {
        span(mixed_alpha_chars(), prev, c)
    } else {
        span(upper_alpha_chars(), prev, c)
    }
}

/// Expansion of a bracket class body from position `i` on, `acc` holding what
/// was expanded so far; `None` where the body cannot be read (a negated
/// shorthand class, a range without a start, or an unreadable range).
pub open spec fn expand_from(s: Seq<char>, i: nat, acc: Seq<char>, escaped: bool) -> Option<Seq<char>>
    decreases s.len() - i,
{
    if i >= s.len() {
        Some(acc)
    } else {
        let c = s[i as int];
        if escaped {
            if is_class_key(c) {
                if lower(c) != c {
                    None
                } else {
                    expand_from(s, i + 1, acc + class_chars(c), false)
                }
            } else {
                expand_from(s, i + 1, acc.push(c), false)
            }
        } else if c == '\\' {
            expand_from(s, i + 1, acc, true)
        } else if acc.len() > 0 && acc.last() == '-' {
            let without_dash = acc.drop_last();
            if without_dash.len() == 0 {
                None
            } else {
                match range_chars(without_dash.last(), c) {
                    None => None,
                    Some(r) => expand_from(s, i + 1, without_dash.drop_last() + r, false),
                }
            }
        } else {
            expand_from(s, i + 1, acc.push(c), false)
        }
    }
}

/// The characters a bracket class body stands for, in order.
pub open spec fn expand(s: Seq<char>) -> Option<Seq<char>> {
    expand_from(s, 0, Seq::empty(), false)
}

fn append_all(acc: &mut Vec<char>, more: &Vec<char>, from: usize, to: usize)
    requires
        from <= to <= more@.len(),
    ensures
        final(acc)@ == old(acc)@ + more@.subrange(from as int, to as int),
{
    let mut k = from;
    while k < to
        invariant
            from <= k <= to,
            to <= more@.len(),
            acc@ == old(acc)@ + more@.subrange(from as int, k as int),
        decreases to - k,
    {
        acc.push(more[k]);
        k = k + 1;
        assert(more@.subrange(from as int, k as int) == more@.subrange(from as int, k - 1).push(more@[k - 1]));
    }
}

fn span_into(acc: &mut Vec<char>, p: &Vec<char>, a: char, b: char) -> (ok: bool)
    ensures
        match span(p@, a, b) {
            None => !ok,
            Some(r) => ok && final(acc)@ == old(acc)@ + r,
        },
{
    proof {
        crate::chars::lemma_index_of_from(p@, a, 0);
        crate::chars::lemma_index_of_from(p@, b, 0);
    }
    let n = p.len();
    let fa = find_char(p, a);
    let fb = find_char(p, b);
    match fa {
        None => {
            assert(index_of(p@, a) is None);
            false
        },
        Some(s) => match fb {
            None => false,
            Some(e) => {
                assert(e < p@.len());
                if s <= e + 1 {
                    append_all(acc, p, s, e + 1);
                    true
                } else {
                    false
                }
            },
        },
    }
}

fn range_into(acc: &mut Vec<char>, prev: char, c: char) -> (ok: bool)
    ensures
        match range_chars(prev, c) {
            None => !ok,
            Some(r) => ok && final(acc)@ == old(acc)@ + r,
        },
{
    if char_is_numeric(c) {
        span_into(acc, &digit_chars_vec(), prev, c)
    } else if to_lower(prev) == prev {
        if to_lower(c) != c {
            false
        } else {
            span_into(acc, &lower_alpha_chars_vec(), prev, c)
        }
    } else if to_lower(c) == c {
        span_into(acc, &mixed_alpha_chars_vec(), prev, c)
    } else {
        span_into(acc, &upper_alpha_chars_vec(), prev, c)
    }
}

/// Expands a bracket class body; `None` where it cannot be read.
pub fn expand_class(p: &Vec<char>) -> (r: Option<Vec<char>>)
    ensures
        match expand(p@) {
            None => r is None,
            Some(e) => r matches Some(v) && v@ == e,
        },
{
    let mut acc: Vec<char> = Vec::new();
    let mut escaped = false;
    let mut i: usize = 0;
    while i < p.len()
        invariant
            i <= p.len(),
            expand(p@) == expand_from(p@, i as nat, acc@, escaped),
        decreases p.len() - i,
    {
        let c = p[i];
        if escaped {
            if is_class_key_char(c) {
                if to_lower(c) != c {
                    return None;
                }
                let cls = class_chars_vec(c);
                append_all(&mut acc, &cls, 0, cls.len());
                assert(cls@.subrange(0, cls@.len() as int) == cls@);
            } else {
                acc.push(c);
            }
            escaped = false;
        } else if c == '\\' {
            escaped = true;
        } else if acc.len() > 0 && acc[acc.len() - 1] == '-' {
            let ghost before = acc@;
            acc.pop();
            if acc.len() == 0 {
                return None;
            }
            let prev = acc[acc.len() - 1];
            acc.pop();
            assert(acc@ == before.drop_last().drop_last());
            if !range_into(&mut acc, prev, c) {
                return None;
            }
        } else {
            acc.push(c);
        }
        i = i + 1;
    }
    Some(acc)
}

} // verus!

verus! {

/// Positions of the `'|'` that separate the outermost alternatives of `text`:
/// bars outside any group or bracket class and not escaped, in rising order.
pub fn or_in_root(text: &str) -> (r: Vec<usize>)
    requires
        root_bars(text@) is Some,
    ensures
        ints(r@) == root_bars(text@).unwrap(),
        forall|k: int| 0 <= k < r@.len() ==> #[trigger] r@[k] < text@.len() && text@[r@[k] as int] == '|',
        forall|k: int, l: int| 0 <= k < l < r@.len() ==> #[trigger] r@[k] < #[trigger] r@[l],
{
    let p = chars_of(text);
    let r = scan_root_bars(&p).unwrap();
    proof {
        lemma_root_bars_from(p@, 0, nesting_start());
        let b = root_bars(p@).unwrap();
        assert forall|k: int| 0 <= k < r@.len() implies #[trigger] r@[k] < text@.len() && text@[r@[k] as int] == '|' by {
            assert(ints(r@)[k] == b[k]);
        }
        assert forall|k: int, l: int| 0 <= k < l < r@.len() implies #[trigger] r@[k] < #[trigger] r@[l] by {
            assert(ints(r@)[k] == b[k]);
            assert(ints(r@)[l] == b[l]);
        }
    }
    r
}

/// Position of the `')'` that closes the group opened by the first character
/// of `text`, or `None` where the group is not closed.
pub fn get_end_of_group(text: &str) -> (r: Option<usize>)
    requires
        group_end(text@) is Some,
    ensures
        match group_end(text@).unwrap() {
            None => r is None,
            Some(e) => r == Some(e as usize),
        },
        r matches Some(e) ==> e < text@.len() && text@[e as int] == ')',
{
    let p = chars_of(text);
    proof {
        if group_end(p@) matches Some(Some(_)) {
            lemma_group_end_from(p@, 0, nesting_start());
        }
    }
    let n = p.len();
    let r = scan_group_end(&p).unwrap();
    proof {
        if let Some(e) = r {
            assert(p@.len() == n);
            let e2 = group_end(p@).unwrap().unwrap();
            assert(0 <= e2 < p@.len() && p@[e2] == ')');
        }
    }
    r
}

/// Position of the `']'` that closes the bracket class opened by the first
/// character of `text`, or `None` where the class is not closed.
pub fn get_end_of_any(text: &str) -> (r: Option<usize>)
    requires
        class_end(text@) is Some,
    ensures
        match class_end(text@).unwrap() {
            None => r is None,
            Some(e) => r == Some(e as usize),
        },
        r matches Some(e) ==> e < text@.len() && text@[e as int] == ']',
{
    let p = chars_of(text);
    proof {
        if class_end(p@) matches Some(Some(_)) {
            lemma_class_end_from(p@, 0, ClassNesting { inside: 0, escaped: false });
        }
    }
    let n = p.len();
    let r = scan_class_end(&p).unwrap();
    proof {
        if let Some(e) = r {
            assert(p@.len() == n);
            let e2 = class_end(p@).unwrap().unwrap();
            assert(0 <= e2 < p@.len() && p@[e2] == ']');
        }
    }
    r
}

/// The characters a bracket class body accepts, with shorthand classes and
/// ranges written out.
pub fn expand_any(text: &str) -> (r: String)
    requires
        expand(text@) is Some,
    ensures
        r@ == expand(text@).unwrap(),
{
    let p = chars_of(text);
    let v = expand_class(&p).unwrap();
    string_of(&v)
}

/// Length of the literal run at the start of `text`.
pub fn get_end_of_static(text: &str) -> (r: usize)
    ensures
        r == static_end(text@),
        r <= text@.len(),
{
    let p = chars_of(text);
    scan_static_end(&p)
}

} // verus!

verus! {

proof fn lemma_expand_plain_from(s: Seq<char>, i: nat)
    requires
        i <= s.len(),
        forall|k: int| 0 <= k < s.len() ==> #[trigger] s[k] != '\\' && s[k] != '-',
    ensures
        expand_from(s, i, s.take(i as int), false) == Some(s),
    decreases s.len() - i,
{
    if i < s.len() {
        if i > 0 {
            assert(s.take(i as int).last() == s[i - 1]);
        }
        assert(s[i as int] != '\\' && s[i as int] != '-');
        assert(s.take(i as int).push(s[i as int]) == s.take(i + 1 as int));
        lemma_expand_plain_from(s, i + 1);
    } else {
        assert(s.take(i as int) == s);
    }
}

/// A bracket class body with no `\` and no `-` stands for its own characters.
pub proof fn lemma_expand_plain(s: Seq<char>)
    requires
        forall|k: int| 0 <= k < s.len() ==> #[trigger] s[k] != '\\' && s[k] != '-',
    ensures
        expand(s) == Some(s),
{
    assert(s.take(0) == Seq::<char>::empty());
    lemma_expand_plain_from(s, 0);
}

} // verus!

verus! {

/// The character at position `k` of `s` is escaped: the one before it is a
/// `\` that is not itself escaped.
pub open spec fn escaped_at(s: Seq<char>, k: nat) -> bool
    decreases k,
{
    if k == 0 || k > s.len() {
        false
    } else {
        s[k - 1] == '\\' && !escaped_at(s, (k - 1) as nat)
    }
}

/// A literal run stops at `k`: an unescaped one of `(){}[]|^$.*+?`, an
/// escaped letter of a shorthand class (`w`, `d`, `s` in either case), or the
/// `\` that escapes a numeric character.
pub open spec fn run_stops_at(s: Seq<char>, k: nat) -> bool {
    let c = s[k as int];
    ||| !escaped_at(s, k) && (c == '(' || c == ')' || c == '{' || c == '}' || c == '[' || c == ']' || c == '|'
        || c == '^' || c == '$' || c == '.' || c == '*' || c == '+' || c == '?')
    ||| escaped_at(s, k) && (c == 'w' || c == 'W' || c == 'd' || c == 'D' || c == 's' || c == 'S')
    ||| k + 1 < s.len() && escaped_at(s, (k + 1) as nat) && numeric_char(s[k + 1 as int])
}

proof fn lemma_run_stops(s: Seq<char>, i: nat, esc: bool)
    requires
        i <= s.len(),
        esc == escaped_at(s, i),
        esc ==> i >= 1,
        forall|k: nat| k + 1 < i ==> !#[trigger] run_stops_at(s, k),
        (!esc && i >= 1) ==> !run_stops_at(s, (i - 1) as nat),
    ensures
        0 <= static_end_from(s, i, esc) <= s.len(),
        forall|k: nat| k < static_end_from(s, i, esc) ==> !#[trigger] run_stops_at(s, k),
        static_end_from(s, i, esc) < s.len() ==> run_stops_at(s, static_end_from(s, i, esc) as nat),
    decreases s.len() - i,
{
    let e = static_end_from(s, i, esc);
    if esc {
        assert(s[i - 1] == '\\' && !escaped_at(s, (i - 1) as nat));
    }
    if i >= s.len() {
        assert forall|k: nat| k < e implies !#[trigger] run_stops_at(s, k) by {
            if k + 1 >= i {
                assert(k == i - 1);
            }
        }
    } else {
        let c = s[i as int];
        assert(escaped_at(s, i + 1) == (c == '\\' && !esc));
        if esc {
            if is_class_key(c) {
                assert(lower(c) == 'w' || lower(c) == 'd' || lower(c) == 's');
                assert(c == 'w' || c == 'W' || c == 'd' || c == 'D' || c == 's' || c == 'S');
                assert(!numeric_char(c));
                assert(run_stops_at(s, i));
                assert forall|k: nat| k < e implies !#[trigger] run_stops_at(s, k) by {
                    if k + 1 >= i {
                        assert(k == i - 1);
                    }
                }
            } else if numeric_char(c) {
                assert(run_stops_at(s, (i - 1) as nat));
            } else {
                assert(!run_stops_at(s, (i - 1) as nat));
                assert(!run_stops_at(s, i)) by {
                    assert(!(c == 'w' || c == 'W' || c == 'd' || c == 'D' || c == 's' || c == 'S'));
                }
                lemma_run_stops(s, i + 1, false);
            }
        } else if c == '\\' {
            lemma_run_stops(s, i + 1, true);
        } else if is_special(c) {
            assert(run_stops_at(s, i));
        } else {
            assert(!run_stops_at(s, i));
            lemma_run_stops(s, i + 1, false);
        }
    }
}

/// The literal run at the start of a pattern ends at the first place where a
/// run stops (or at the end): no position before its end stops a run, and the
/// position at its end does.
pub proof fn law_literal_run_ends_at_first_stop(s: Seq<char>)
    ensures
        0 <= static_end(s) <= s.len(),
        forall|k: nat| k < static_end(s) ==> !#[trigger] run_stops_at(s, k),
        static_end(s) < s.len() ==> run_stops_at(s, static_end(s) as nat),
{
    lemma_run_stops(s, 0, false);
}

} // verus!

verus! {

proof fn lemma_expand_then_escaped(x: Seq<char>, c: char, i: nat, acc: Seq<char>, esc: bool)
    requires
        i <= x.len(),
        esc == escaped_at(x, i),
        !escaped_at(x, x.len()),
        !(c == 'w' || c == 'W' || c == 'd' || c == 'D' || c == 's' || c == 'S'),
    ensures
        expand_from(x + seq!['\\', c], i, acc, esc) == (match expand_from(x, i, acc, esc) {
            Some(e) => Some(e.push(c)),
            None => None,
        }),
    decreases x.len() - i,
{
    let y = x + seq!['\\', c];
    if i == x.len() {
        assert(!esc);
        assert(y[i as int] == '\\');
        assert(y[i + 1 as int] == c);
        assert(!is_class_key(c)) by {
            if 'A' <= c && c <= 'Z' {
                assert(lower(c) == ((c as u32) + 32) as char);
            }
        }
        assert(expand_from(y, i + 2, acc.push(c), false) == Some(acc.push(c)));
        assert(expand_from(y, i + 1, acc, true) == expand_from(y, i + 2, acc.push(c), false));
    } else {
        let ch = x[i as int];
        assert(y[i as int] == ch);
        assert(escaped_at(x, i + 1) == (ch == '\\' && !esc));
        if esc {
            if is_class_key(ch) {
                if lower(ch) == ch {
                    lemma_expand_then_escaped(x, c, i + 1, acc + class_chars(ch), false);
                }
            } else {
                lemma_expand_then_escaped(x, c, i + 1, acc.push(ch), false);
            }
        } else if ch == '\\' {
            lemma_expand_then_escaped(x, c, i + 1, acc, true);
        } else if acc.len() > 0 && acc.last() == '-' {
            let without_dash = acc.drop_last();
            if without_dash.len() > 0 {
                if let Some(r) = range_chars(without_dash.last(), ch) {
                    lemma_expand_then_escaped(x, c, i + 1, without_dash.drop_last() + r, false);
                }
            }
        } else {
            lemma_expand_then_escaped(x, c, i + 1, acc.push(ch), false);
        }
    }
}

/// In a bracket class body, an escaped character other than the letters of
/// the shorthand classes stands for itself: appending `\c` to a body that does
/// not end in an escaping `\` appends `c` to its expansion (and reads wherever
/// the body reads).
pub proof fn law_escaped_char_stands_for_itself(x: Seq<char>, c: char)
    requires
        !escaped_at(x, x.len()),
        !(c == 'w' || c == 'W' || c == 'd' || c == 'D' || c == 's' || c == 'S'),
    ensures
        expand(x + seq!['\\', c]) == (match expand(x) {
            Some(e) => Some(e.push(c)),
            None => None,
        }),
        expand(x) is Some ==> expand(x + seq!['\\', c]).unwrap().contains(c),
{
    lemma_expand_then_escaped(x, c, 0, Seq::empty(), false);
    if let Some(e) = expand(x) {
        assert(e.push(c)[e.len() as int] == c);
    }
}

} // verus!

verus! {

proof fn lemma_alphabet_index(p: Seq<char>, base: int, n: int, x: char)
    requires
        p.len() == n,
        forall|i: int| 0 <= i < n ==> #[trigger] p[i] as int == base + i,
        base <= (x as int) && (x as int) < base + n,
    ensures
        index_of(p, x) == Some(x as int - base),
{
    let e = x as int - base;
    crate::chars::lemma_index_of_from(p, x, 0);
    assert(p[e] as int == x as int);
    assert(p[e] == x);
    match index_of(p, x) {
        Some(k) => {
            if k != e {
                assert(p[k] as int == base + k);
            }
        },
        None => {
            assert(p[e] != x);
        },
    }
}

/// A range `x-y` of lower-case letters, or of digits, with `x` not after `y`,
/// stands for every character from `x` to `y`, in order.
pub proof fn law_class_range(x: char, y: char)
    requires
        ('a' <= x && x <= y && y <= 'z') || ('0' <= x && x <= y && y <= '9'),
    ensures
        expand(seq![x, '-', y]) matches Some(e) && e.len() == y as int - x as int + 1 && forall|k: int|
            0 <= k < e.len() ==> #[trigger] e[k] as int == x as int + k,
{
    let s = seq![x, '-', y];
    let digits = '0' <= x && x <= y && y <= '9';
    let alpha = if digits { crate::chars::digit_chars() } else { crate::chars::lower_alpha_chars() };
    let base: int = if digits { 48 } else { 97 };
    let n: int = if digits { 10 } else { 26 };
    assert(alpha.len() == n && forall|i: int| 0 <= i < n ==> #[trigger] alpha[i] as int == base + i) by {
        if digits {
            crate::chars::lemma_digit_at(0);
            assert forall|i: int| 0 <= i < n implies #[trigger] alpha[i] as int == base + i by {
                crate::chars::lemma_digit_at(i);
            }
        } else {
            crate::chars::lemma_lower_alpha_at(0);
            assert forall|i: int| 0 <= i < n implies #[trigger] alpha[i] as int == base + i by {
                crate::chars::lemma_lower_alpha_at(i);
            }
        }
    }
    lemma_alphabet_index(alpha, base, n, x);
    lemma_alphabet_index(alpha, base, n, y);
    let r = alpha.subrange(x as int - base, y as int - base + 1);
    assert(span(alpha, x, y) == Some(r));
    assert(numeric_char(y) == digits);
    if !digits {
        assert(lower(x) == x);
        assert(lower(y) == y);
    }
    assert(range_chars(x, y) == Some(r));
    assert(s[0] == x && s[1] == '-' && s[2] == y);
    let a1 = seq![x];
    let a2 = seq![x, '-'];
    assert(Seq::<char>::empty().push(x) == a1);
    assert(a1.push('-') == a2);
    assert(a2.last() == '-');
    assert(a2.drop_last() == a1);
    assert(a1.drop_last() + r == r);
    assert(expand_from(s, 3, r, false) == Some(r));
    assert(expand_from(s, 2, a2, false) == Some(r));
    assert(expand_from(s, 1, a1, false) == Some(r));
    assert(expand(s) == Some(r));
    assert forall|k: int| 0 <= k < r.len() implies #[trigger] r[k] as int == x as int + k by {
        assert(r[k] == alpha[x as int - base + k]);
    }
}

} // verus!
