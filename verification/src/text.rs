use vstd::prelude::*;
use vstd::string::StrSliceExecFns;

verus! {

/// Whitespace characters removed by line trimming: the Unicode White_Space
/// set, as `str::trim` removes.
pub open spec fn is_ws(c: char) -> bool {
    let u: u32 = c as u32;
    u == 0x9 || u == 0xa || u == 0xb || u == 0xc || u == 0xd || u == 0x20 || u == 0x85
        || u == 0xa0 || u == 0x1680 || (0x2000 <= u && u <= 0x200a) || u == 0x2028 || u == 0x2029
        || u == 0x202f || u == 0x205f || u == 0x3000
}

pub fn ws_char(c: char) -> (r: bool)
    ensures
        r == is_ws(c),
{
    let u: u32 = c as u32;
    u == 0x9 || u == 0xa || u == 0xb || u == 0xc || u == 0xd || u == 0x20 || u == 0x85
        || u == 0xa0 || u == 0x1680 || (0x2000 <= u && u <= 0x200a) || u == 0x2028 || u == 0x2029
        || u == 0x202f || u == 0x205f || u == 0x3000
}

/// `s` with leading whitespace removed.
pub open spec fn trim_start_s(s: Seq<char>) -> Seq<char>
    decreases s.len(),
{
    if s.len() > 0 && is_ws(s.first()) {
        trim_start_s(s.drop_first())
    } else {
        s
    }
}

/// `s` with trailing whitespace removed.
pub open spec fn trim_end_s(s: Seq<char>) -> Seq<char>
    decreases s.len(),
{
    if s.len() > 0 && is_ws(s.last()) {
        trim_end_s(s.drop_last())
    } else {
        s
    }
}

/// `s` with both leading and trailing whitespace removed.
pub open spec fn trim_s(s: Seq<char>) -> Seq<char> {
    trim_end_s(trim_start_s(s))
}

/// Bounds `(a, b)` within `[lo, hi)` such that `s[a..b]` is the trimmed form
/// of the line `s[lo..hi]`.
pub fn trim_bounds(s: &str, lo: usize, hi: usize) -> (r: (usize, usize))
    requires
        lo <= hi <= s@.len(),
    ensures
        lo <= r.0 <= r.1 <= hi,
        s@.subrange(r.0 as int, r.1 as int) == trim_s(s@.subrange(lo as int, hi as int)),
{
    let mut a: usize = lo;
    while a < hi && ws_char(s.get_char(a))
        invariant
            lo <= a <= hi <= s@.len(),
            trim_start_s(s@.subrange(lo as int, hi as int)) == trim_start_s(
                s@.subrange(a as int, hi as int),
            ),
        decreases hi - a,
    {
        proof {
            let sub = s@.subrange(a as int, hi as int);
            assert(sub.len() > 0 && is_ws(sub.first()));
            assert(sub.drop_first() =~= s@.subrange(a as int + 1, hi as int));
        }
        a = a + 1;
    }
    proof {
        let sub = s@.subrange(a as int, hi as int);
        assert(trim_start_s(sub) == sub);
    }
    let mut b: usize = hi;
    while b > a && ws_char(s.get_char(b - 1))
        invariant
            lo <= a <= b <= hi <= s@.len(),
            trim_start_s(s@.subrange(lo as int, hi as int)) == s@.subrange(a as int, hi as int),
            trim_end_s(s@.subrange(a as int, hi as int)) == trim_end_s(
                s@.subrange(a as int, b as int),
            ),
        decreases b,
    {
        proof {
            let sub = s@.subrange(a as int, b as int);
            assert(sub.len() > 0 && is_ws(sub.last()));
            assert(sub.drop_last() =~= s@.subrange(a as int, b as int - 1));
        }
        b = b - 1;
    }
    proof {
        let sub = s@.subrange(a as int, b as int);
        assert(trim_end_s(sub) == sub);
    }
    (a, b)
}

/// Length of the run of `#` characters at the start of `s`.
pub open spec fn hash_run(s: Seq<char>) -> nat
    decreases s.len(),
{
    if s.len() > 0 && s.first() == '#' {
        (hash_run(s.drop_first()) + 1) as nat
    } else {
        0
    }
}

/// A run of leading `#` characters is characterized by its endpoint.
pub proof fn lemma_hash_run_is(s: Seq<char>, k: nat)
    requires
        k <= s.len(),
        forall|i: int| 0 <= i < k ==> s[i] == '#',
        k < s.len() ==> s[k as int] != '#',
    ensures
        hash_run(s) == k,
    decreases s.len(),
{
    if k == 0 {
        if s.len() > 0 {
            assert(s.first() != '#');
        }
    } else {
        assert(s.first() == '#');
        let t = s.drop_first();
        assert forall|i: int| 0 <= i < k - 1 implies t[i] == '#' by {
            assert(s[i + 1] == '#');
        }
        lemma_hash_run_is(t, (k - 1) as nat);
    }
}

/// The first index after `a` at which the `#` run inside `[a, b)` ends.
pub fn hash_end(s: &str, a: usize, b: usize) -> (r: usize)
    requires
        a <= b <= s@.len(),
    ensures
        a <= r <= b,
        r - a == hash_run(s@.subrange(a as int, b as int)),
{
    let mut i: usize = a;
    while i < b && s.get_char(i) == '#'
        invariant
            a <= i <= b <= s@.len(),
            hash_run(s@.subrange(a as int, b as int)) == (i - a) + hash_run(
                s@.subrange(i as int, b as int),
            ),
        decreases b - i,
    {
        proof {
            let sub = s@.subrange(i as int, b as int);
            assert(sub.len() > 0 && sub.first() == '#');
            assert(sub.drop_first() =~= s@.subrange(i as int + 1, b as int));
        }
        i = i + 1;
    }
    proof {
        let sub = s@.subrange(i as int, b as int);
        assert(hash_run(sub) == 0);
    }
    i
}

/// The leading `#` run: every character within it is `#`, and the character
/// just after it, if any, is not.
pub proof fn lemma_hash_run_props(s: Seq<char>)
    ensures
        hash_run(s) <= s.len(),
        forall|i: int| 0 <= i < hash_run(s) ==> s[i] == '#',
        hash_run(s) < s.len() ==> s[hash_run(s) as int] != '#',
    decreases s.len(),
{
    if s.len() > 0 && s.first() == '#' {
        lemma_hash_run_props(s.drop_first());
        assert forall|i: int| 0 <= i < hash_run(s) implies s[i] == '#' by {
            if i > 0 {
                assert(s.drop_first()[i - 1] == s[i]);
            }
        }
        if hash_run(s) < s.len() {
            assert(s.drop_first()[hash_run(s) - 1] == s[hash_run(s) as int]);
        }
    }
}

/// A sequence of `n` `#` characters.
pub open spec fn hashes(n: nat) -> Seq<char>
    decreases n,
{
    if n == 0 {
        Seq::empty()
    } else {
        hashes((n - 1) as nat).push('#')
    }
}

pub proof fn lemma_hashes(n: nat)
    ensures
        hashes(n).len() == n,
        forall|i: int| 0 <= i < n ==> hashes(n)[i] == '#',
    decreases n,
{
    if n > 0 {
        lemma_hashes((n - 1) as nat);
    }
}

/// Index of the first newline in `s`, or `s.len()` if there is none.
pub open spec fn nl_pos(s: Seq<char>) -> nat
    decreases s.len(),
{
    if s.len() == 0 {
        0
    } else if s.first() == '\n' {
        0
    } else {
        (nl_pos(s.drop_first()) + 1) as nat
    }
}

/// The first newline is characterized by its index.
pub proof fn lemma_nl_pos_is(s: Seq<char>, k: nat)
    requires
        k <= s.len(),
        forall|i: int| 0 <= i < k ==> s[i] != '\n',
        k < s.len() ==> s[k as int] == '\n',
    ensures
        nl_pos(s) == k,
    decreases s.len(),
{
    if k == 0 {
        if s.len() > 0 {
            assert(s.first() == '\n');
        }
    } else {
        assert(s[0] != '\n');
        let t = s.drop_first();
        assert forall|i: int| 0 <= i < k - 1 implies t[i] != '\n' by {
            assert(s[i + 1] != '\n');
        }
        lemma_nl_pos_is(t, (k - 1) as nat);
    }
}

/// The first-newline position: no newline stands before it, and a newline
/// stands at it whenever it lies within the sequence.
pub proof fn lemma_nl_pos_props(s: Seq<char>)
    ensures
        nl_pos(s) <= s.len(),
        forall|i: int| 0 <= i < nl_pos(s) ==> s[i] != '\n',
        nl_pos(s) < s.len() ==> s[nl_pos(s) as int] == '\n',
    decreases s.len(),
{
    if s.len() > 0 && s.first() != '\n' {
        lemma_nl_pos_props(s.drop_first());
        assert forall|i: int| 0 <= i < nl_pos(s) implies s[i] != '\n' by {
            if i > 0 {
                assert(s.drop_first()[i - 1] == s[i]);
            }
        }
        if nl_pos(s) < s.len() {
            assert(s.drop_first()[nl_pos(s) - 1] == s[nl_pos(s) as int]);
        }
    }
}

/// Case-sensitive lexicographic order on character sequences, by code point.
pub open spec fn lex_lt(a: Seq<char>, b: Seq<char>) -> bool
    decreases a.len(),
{
    if b.len() == 0 {
        false
    } else if a.len() == 0 {
        true
    } else if a.first() == b.first() {
        lex_lt(a.drop_first(), b.drop_first())
    } else {
        (a.first() as u32) < (b.first() as u32)
    }
}

pub proof fn lemma_lex_lt_trans(a: Seq<char>, b: Seq<char>, c: Seq<char>)
    requires
        lex_lt(a, b),
        lex_lt(b, c),
    ensures
        lex_lt(a, c),
    decreases a.len() + b.len() + c.len(),
{
    if a.len() == 0 {
        assert(b.len() > 0);
        assert(c.len() > 0);
    } else {
        assert(b.len() > 0 && c.len() > 0);
        if a.first() == b.first() && b.first() == c.first() {
            lemma_lex_lt_trans(a.drop_first(), b.drop_first(), c.drop_first());
        }
    }
}

/// Irreflexivity: no sequence precedes itself.
pub proof fn lemma_lex_lt_irrefl(a: Seq<char>)
    ensures
        !lex_lt(a, a),
    decreases a.len(),
{
    if a.len() > 0 {
        lemma_lex_lt_irrefl(a.drop_first());
    }
}

/// Three-way comparison result.
#[derive(Clone, Copy, PartialEq, Eq, Structural, Debug)]
pub enum Cmp {
    Lt,
    Eq,
    Gt,
}

/// Three-way lexicographic comparison of two strings by code point.
pub fn str_cmp(a: &str, b: &str) -> (r: Cmp)
    ensures
        r == Cmp::Lt <==> lex_lt(a@, b@),
        r == Cmp::Eq <==> a@ == b@,
        r == Cmp::Gt <==> lex_lt(b@, a@),
{
    let la = a.unicode_len();
    let lb = b.unicode_len();
    let mut i: usize = 0;
    proof {
        assert(a@.skip(0) =~= a@);
        assert(b@.skip(0) =~= b@);
    }
    while i < la && i < lb
        invariant
            i <= la,
            i <= lb,
            la == a@.len(),
            lb == b@.len(),
            a@.take(i as int) =~= b@.take(i as int),
            lex_lt(a@, b@) == lex_lt(a@.skip(i as int), b@.skip(i as int)),
            lex_lt(b@, a@) == lex_lt(b@.skip(i as int), a@.skip(i as int)),
        decreases la - i,
    {
        let ca = a.get_char(i);
        let cb = b.get_char(i);
        proof {
            let sa = a@.skip(i as int);
            let sb = b@.skip(i as int);
            assert(sa.first() == ca && sb.first() == cb);
            if ca == cb {
                assert(sa.drop_first() =~= a@.skip(i as int + 1));
                assert(sb.drop_first() =~= b@.skip(i as int + 1));
                assert(a@.take(i as int + 1) =~= b@.take(i as int + 1));
            }
        }
        if (ca as u32) < (cb as u32) {
            proof {
                assert(ca != cb);
            }
            return Cmp::Lt;
        }
        if (cb as u32) < (ca as u32) {
            proof {
                assert(ca != cb);
            }
            return Cmp::Gt;
        }
        proof {
            assert(ca as u32 == cb as u32);
            assert(ca == cb);
        }
        i = i + 1;
    }
    if i >= la && i >= lb {
        proof {
            assert(a@.take(i as int) =~= a@);
            assert(b@.take(i as int) =~= b@);
            assert(a@ == b@);
            assert(!lex_lt(a@, b@) && !lex_lt(b@, a@));
        }
        Cmp::Eq
    } else if i >= la {
        proof {
            assert(a@.skip(i as int).len() == 0);
            assert(b@.skip(i as int).len() > 0);
            assert(lex_lt(a@, b@));
            assert(a@.len() < b@.len());
            assert(!lex_lt(b@, a@));
        }
        Cmp::Lt
    } else {
        proof {
            assert(b@.skip(i as int).len() == 0);
            assert(a@.skip(i as int).len() > 0);
            assert(lex_lt(b@, a@));
            assert(!lex_lt(a@, b@));
        }
        Cmp::Gt
    }
}

} // verus!
