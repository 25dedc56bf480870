//! Judging one record of a reference list of split compounds.
use vstd::prelude::*;
use vstd::string::StringExecFns;

use crate::splitter::{lemma_splits_as_unique, CharSplitter};
use crate::text::{chars_of, title_of, titlecase, CharString};

verus! {

/// Whether a character is white space, as the standard library decides it.
pub uninterp spec fn white(c: char) -> bool;

/// Relies on `char::is_whitespace`: its result depends on the character alone.
#[verifier::external_body]
fn is_white(c: char) -> (r: bool)
    ensures
        r == white(c),
{
    c.is_whitespace()
}

/// `s` without its leading white space.
pub open spec fn trim_start(s: Seq<char>) -> Seq<char>
    decreases s.len(),
{
    if s.len() > 0 && white(s[0]) {
        trim_start(s.drop_first())
    } else {
        s
    }
}

/// `s` without its trailing white space.
pub open spec fn trim_end(s: Seq<char>) -> Seq<char>
    decreases s.len(),
{
    if s.len() > 0 && white(s.last()) {
        trim_end(s.drop_last())
    } else {
        s
    }
}

/// `s` without leading and trailing white space.
pub open spec fn trimmed(s: Seq<char>) -> Seq<char> {
    trim_end(trim_start(s))
}

/// Whether `t` holds exactly two tabs, at `a` and at `b`: it then has three
/// tab-separated fields.
pub open spec fn two_tabs_at(t: Seq<char>, a: int, b: int) -> bool {
    &&& 0 <= a < b < t.len()
    &&& t[a] == '\t'
    &&& t[b] == '\t'
    &&& !t.take(a).contains('\t')
    &&& !t.subrange(a + 1, b).contains('\t')
    &&& !t.skip(b + 1).contains('\t')
}

/// A text holds its two tabs at one pair of positions only.
proof fn lemma_two_tabs_unique(t: Seq<char>, a: int, b: int, a2: int, b2: int)
    requires
        two_tabs_at(t, a, b),
        two_tabs_at(t, a2, b2),
    ensures
        a == a2,
        b == b2,
{
    if a2 < a {
        assert(t.take(a)[a2] == t[a2]);
    } else if a < a2 {
        assert(t.take(a2)[a] == t[a]);
    } else if b2 < b {
        assert(t.subrange(a + 1, b)[b2 - a - 1] == t[b2]);
    } else if b < b2 {
        assert(t.subrange(a + 1, b2)[b - a - 1] == t[b]);
    }
}

/// The first position from `from` on, below `to`, that holds a tab, or `to`.
fn next_tab(v: &Vec<char>, from: usize, to: usize) -> (r: usize)
    requires
        from <= to <= v@.len(),
    ensures
        from <= r <= to,
        r < to ==> v@[r as int] == '\t',
        !v@.subrange(from as int, r as int).contains('\t'),
{
    let mut k = from;
    while k < to && v[k] != '\t'
        invariant
            from <= k <= to <= v@.len(),
            forall|m: int| from <= m < k ==> v@[m] != '\t',
        decreases to - k,
    {
        k = k + 1;
    }
    proof {
        let s = v@.subrange(from as int, k as int);
        assert forall|m: int| 0 <= m < s.len() implies #[trigger] s[m] != '\t' by {
            assert(s[m] == v@[from + m]);
        }
    }
    k
}

/// Judges one line of the reference list: `None` where the line, trimmed,
/// does not hold exactly three tab-separated fields; else whether the right
/// part of the split of the first field, with its first character in
/// uppercase, equals the third field.
pub fn judge_line(splitter: &CharSplitter, line: &str) -> (r: Option<bool>)
    ensures
        r is Some <==> exists|a: int, b: int| two_tabs_at(trimmed(line@), a, b),
        r matches Some(ok) ==> forall|a: int, b: int, left: Seq<char>, right: Seq<char>|
            two_tabs_at(trimmed(line@), a, b) && splitter.splits_as(
                trimmed(line@).take(a),
                left,
                right,
            ) ==> (ok <==> title_of(right) == trimmed(line@).skip(b + 1)),
{
    let v = chars_of(line);
    let text = CharString::new(line);
    let len = v.len();
    let ghost s = line@;
    let mut i: usize = 0;
    assert(s.skip(0) =~= s);
    while i < len && is_white(v[i])
        invariant
            i <= len == s.len(),
            v@ == s,
            trim_start(s) == trim_start(s.skip(i as int)),
        decreases len - i,
    {
        proof {
            assert(s.skip(i as int).drop_first() =~= s.skip(i + 1));
        }
        i = i + 1;
    }
    proof {
        if i < len {
            assert(s.skip(i as int)[0] == s[i as int]);
        }
    }
    let mut j: usize = len;
    while j > i && is_white(v[j - 1])
        invariant
            i <= j <= len == s.len(),
            v@ == s,
            trimmed(s) == trim_end(s.subrange(i as int, j as int)),
        decreases j,
    {
        proof {
            assert(s.subrange(i as int, j as int).drop_last() =~= s.subrange(i as int, j - 1));
        }
        j = j - 1;
    }
    let ghost t = s.subrange(i as int, j as int);
    proof {
        if j > i {
            assert(t.last() == s[j - 1]);
        }
        assert(trimmed(s) == t);
    }
    let a = next_tab(&v, i, j);
    if a == j {
        proof {
            assert(t =~= s.subrange(i as int, a as int));
            assert forall|x: int, y: int| !two_tabs_at(t, x, y) by {
                if two_tabs_at(t, x, y) {
                    assert(t[x] == s.subrange(i as int, a as int)[x]);
                }
            }
        }
        return None;
    }
    let b = next_tab(&v, a + 1, j);
    if b == j {
        proof {
            assert forall|x: int, y: int| !two_tabs_at(t, x, y) by {
                if two_tabs_at(t, x, y) {
                    assert(t.take(a - i) =~= s.subrange(i as int, a as int));
                    assert(t.subrange(a - i + 1, j - i) =~= s.subrange(a + 1, b as int));
                    if x < a - i {
                        assert(t.take(a - i)[x] == t[x]);
                    } else if x > a - i {
                        assert(t.take(x)[a - i] == t[a - i]);
                    } else {
                        assert(t.subrange(a - i + 1, j - i)[y - (a - i + 1)] == t[y]);
                    }
                }
            }
        }
        return None;
    }
    let c = next_tab(&v, b + 1, j);
    if c < j {
        proof {
            assert forall|x: int, y: int| !two_tabs_at(t, x, y) by {
                if two_tabs_at(t, x, y) {
                    assert(t.take(a - i) =~= s.subrange(i as int, a as int));
                    assert(t.subrange(a - i + 1, b - i) =~= s.subrange(a + 1, b as int));
                    assert(t.subrange(b - i + 1, c - i) =~= s.subrange(b + 1, c as int));
                    if x < a - i {
                        assert(t.take(a - i)[x] == t[x]);
                    } else if x > a - i {
                        assert(t.take(x)[a - i] == t[a - i]);
                    } else if y < b - i {
                        assert(t.subrange(a - i + 1, b - i)[y - (a - i + 1)] == t[y]);
                    } else if y > b - i {
                        assert(t.subrange(x + 1, y)[b - i - (x + 1)] == t[b - i]);
                    } else {
                        assert(t.skip(y + 1)[c - i - (y + 1)] == t[c - i]);
                    }
                }
            }
        }
        return None;
    }
    let field0 = text.substr(i, a);
    let field2 = text.substr(b + 1, j);
    let (left, right) = splitter.split(field0);
    let title = titlecase(right);
    let expected = String::from_str(field2);
    let ok = title == expected;
    proof {
        let x = a - i;
        let y = b - i;
        assert(t.take(x) =~= s.subrange(i as int, a as int));
        assert(t.subrange(x + 1, y) =~= s.subrange(a + 1, b as int));
        assert(t.skip(y + 1) =~= s.subrange(b + 1, j as int));
        assert(two_tabs_at(t, x, y));
        assert forall|x2: int, y2: int, l2: Seq<char>, r2: Seq<char>|
            two_tabs_at(t, x2, y2) && splitter.splits_as(t.take(x2), l2, r2) implies (ok
            <==> title_of(r2) == t.skip(y2 + 1)) by {
            lemma_two_tabs_unique(t, x, y, x2, y2);
            lemma_splits_as_unique(splitter, t.take(x), left@, right@, l2, r2);
        }
    }
    Some(ok)
}

} // verus!
