use vstd::prelude::*;
use crate::text::{
    all_digits, dec, digits_value, is_digit, lemma_dec_digits, push_unsigned,
};
use crate::error::AgentError;

verus! {

/// Largest value of one identifier component.
pub const COMPONENT_MAX: u32 = 65535;

/// Strict lexicographic order on component sequences: a proper prefix comes
/// first, otherwise the first differing component decides.
pub open spec fn oid_lt(a: Seq<u16>, b: Seq<u16>) -> bool
    decreases a.len(),
{
    if a.len() == 0 {
        b.len() > 0
    } else if b.len() == 0 {
        false
    } else if a[0] != b[0] {
        a[0] < b[0]
    } else {
        oid_lt(a.drop_first(), b.drop_first())
    }
}

/// The text after one optional leading separator.
pub open spec fn body(s: Seq<char>) -> Seq<char> {
    if s.len() > 0 && s[0] == '.' {
        s.drop_first()
    } else {
        s
    }
}

/// The text with a leading separator, added when it has none.
pub open spec fn normalize(s: Seq<char>) -> Seq<char> {
    if s.len() > 0 && s[0] == '.' {
        s
    } else {
        seq!['.'] + s
    }
}

/// The pieces of `s` between separators, in order; there is always at least one.
pub open spec fn split_dots(s: Seq<char>) -> Seq<Seq<char>>
    decreases s.len(),
{
    if s.len() == 0 {
        seq![Seq::<char>::empty()]
    } else {
        let p = split_dots(s.drop_last());
        if s.last() == '.' {
            p.push(Seq::<char>::empty())
        } else {
            p.update(p.len() - 1, p.last().push(s.last()))
        }
    }
}

/// A piece that denotes one component: digits only, at least one, in range.
pub open spec fn valid_component(c: Seq<char>) -> bool {
    c.len() > 0 && all_digits(c) && digits_value(c) <= COMPONENT_MAX
}

pub open spec fn component_value(c: Seq<char>) -> u16 {
    digits_value(c) as u16
}

/// What parsing the text yields: the components, or `None` when the text is
/// empty after the optional leading separator or holds an invalid piece.
pub open spec fn parse_oid(s: Seq<char>) -> Option<Seq<u16>> {
    let parts = split_dots(body(s));
    if forall|k: int| 0 <= k < parts.len() ==> valid_component(#[trigger] parts[k]) {
        Some(parts.map_values(|c: Seq<char>| component_value(c)))
    } else {
        None
    }
}

/// Each component preceded by a separator.
pub open spec fn dotted(v: Seq<u16>) -> Seq<char>
    decreases v.len(),
{
    if v.len() == 0 {
        Seq::<char>::empty()
    } else {
        dotted(v.drop_last()) + seq!['.'] + dec(v.last() as nat)
    }
}

/// Textual form: a leading separator, then the components joined by separators.
pub open spec fn render_oid(v: Seq<u16>) -> Seq<char> {
    if v.len() == 0 {
        seq!['.']
    } else {
        dotted(v)
    }
}

/// A hierarchical numeric identifier.
pub struct OID(pub Vec<u16>);

impl View for OID {
    type V = Seq<u16>;

    open spec fn view(&self) -> Seq<u16> {
        self.0@
    }
}

pub proof fn lemma_split_nonempty(s: Seq<char>)
    ensures
        split_dots(s).len() >= 1,
    decreases s.len(),
{
    if s.len() > 0 {
        lemma_split_nonempty(s.drop_last());
    }
}

/// Text without separators extends the last piece.
proof fn lemma_split_append(p: Seq<char>, t: Seq<char>)
    requires
        forall|i: int| 0 <= i < t.len() ==> t[i] != '.',
    ensures
        split_dots(p + t) == split_dots(p).update(
            split_dots(p).len() - 1,
            split_dots(p).last() + t,
        ),
    decreases t.len(),
{
    lemma_split_nonempty(p);
    if t.len() == 0 {
        assert(p + t =~= p);
        assert(split_dots(p).last() + t =~= split_dots(p).last());
        assert(split_dots(p).update(split_dots(p).len() - 1, split_dots(p).last())
            =~= split_dots(p));
    } else {
        let t0 = t.drop_last();
        lemma_split_append(p, t0);
        assert((p + t).drop_last() =~= p + t0);
        assert((p + t).last() == t.last());
        assert(t.last() != '.');
        let sp = split_dots(p);
        let pp = split_dots(p + t0);
        assert(pp.len() == sp.len());
        assert(pp.last() == sp.last() + t0);
        assert(split_dots(p + t) == pp.update(pp.len() - 1, pp.last().push(t.last())));
        assert((sp.last() + t0).push(t.last()) =~= sp.last() + t);
        assert(split_dots(p + t) =~= split_dots(p).update(
            split_dots(p).len() - 1,
            split_dots(p).last() + t,
        ));
    }
}

proof fn lemma_dec_no_dot(n: nat)
    ensures
        forall|i: int| 0 <= i < dec(n).len() ==> dec(n)[i] != '.',
{
    lemma_dec_digits(n);
    assert forall|i: int| 0 <= i < dec(n).len() implies dec(n)[i] != '.' by {
        assert(is_digit(dec(n)[i]));
    }
}

/// The pieces of a rendered identifier (after its leading separator) are the
/// canonical forms of its components.
proof fn lemma_split_dotted(v: Seq<u16>)
    requires
        v.len() > 0,
    ensures
        dotted(v).len() >= 2,
        dotted(v)[0] == '.',
        dotted(v)[1] == dec(v[0] as nat)[0],
        split_dots(dotted(v).drop_first()) == v.map_values(|x: u16| dec(x as nat)),
    decreases v.len(),
{
    let w = v.drop_last();
    let x = v.last();
    lemma_dec_no_dot(x as nat);
    lemma_dec_digits(x as nat);
    if w.len() == 0 {
        assert(dotted(w) =~= Seq::<char>::empty());
        assert(dotted(v).drop_first() =~= Seq::<char>::empty() + dec(x as nat));
        lemma_split_append(Seq::<char>::empty(), dec(x as nat));
        assert(split_dots(Seq::<char>::empty()) =~= seq![Seq::<char>::empty()]);
        assert(split_dots(dotted(v).drop_first()) =~= v.map_values(|x: u16| dec(x as nat)));
    } else {
        lemma_split_dotted(w);
        let a = dotted(w).drop_first();
        let p = a.push('.');
        assert(dotted(v).drop_first() =~= p + dec(x as nat));
        assert(p.drop_last() =~= a);
        assert(split_dots(p) == split_dots(a).push(Seq::<char>::empty()));
        lemma_split_append(p, dec(x as nat));
        assert(Seq::<char>::empty() + dec(x as nat) =~= dec(x as nat));
        assert(split_dots(dotted(v).drop_first()) =~= v.map_values(|x: u16| dec(x as nat)));
    }
}

/// Round trip: a text in canonical form, with or without its leading
/// separator, parses to the identifier whose rendering is that text with the
/// separator.
pub proof fn lemma_round_trip(t: Seq<char>, v: Seq<u16>)
    requires
        v.len() > 0,
        t == render_oid(v) || t == render_oid(v).drop_first(),
    ensures
        parse_oid(t) == Some(v),
        render_oid(v) == normalize(t),
{
    lemma_split_dotted(v);
    let parts = split_dots(dotted(v).drop_first());
    if t != render_oid(v) {
        let d = v.first();
        lemma_dec_digits(d as nat);
        assert(parts[0] == dec(d as nat));
        assert(t.len() > 0 && t[0] != '.') by {
            assert(t[0] == dec(d as nat)[0]);
            assert(is_digit(dec(d as nat)[0]));
        }
        assert(normalize(t) =~= render_oid(v));
    }
    assert(body(t) == dotted(v).drop_first());
    assert forall|k: int| 0 <= k < parts.len() implies valid_component(#[trigger] parts[k]) by {
        lemma_dec_digits(v[k] as nat);
    }
    assert(parts.map_values(|c: Seq<char>| component_value(c)) =~= v) by {
        assert forall|k: int| 0 <= k < v.len() implies
            parts.map_values(|c: Seq<char>| component_value(c))[k] == v[k] by {
            lemma_dec_digits(v[k] as nat);
        }
    }
}


/// Parsing fails on text that is empty after the optional leading separator,
/// and on text with a piece that is not a component: empty, holding a
/// character other than a digit, or denoting a number out of range.
pub proof fn lemma_parse_rejects(s: Seq<char>, k: int)
    requires
        body(s).len() == 0 || (0 <= k < split_dots(body(s)).len() && !valid_component(
            split_dots(body(s))[k],
        )),
    ensures
        parse_oid(s) is None,
{
    if body(s).len() == 0 {
        assert(split_dots(body(s))[0].len() == 0);
    }
}

/// The order on identifiers never relates an identifier to itself.
pub proof fn lemma_lt_irreflexive(a: Seq<u16>)
    ensures
        !oid_lt(a, a),
    decreases a.len(),
{
    if a.len() > 0 {
        lemma_lt_irreflexive(a.drop_first());
    }
}

/// The order on identifiers is transitive.
pub proof fn lemma_lt_transitive(a: Seq<u16>, b: Seq<u16>, c: Seq<u16>)
    requires
        oid_lt(a, b),
        oid_lt(b, c),
    ensures
        oid_lt(a, c),
    decreases a.len(),
{
    if a.len() > 0 && b.len() > 0 && c.len() > 0 && a[0] == b[0] && b[0] == c[0] {
        lemma_lt_transitive(a.drop_first(), b.drop_first(), c.drop_first());
    }
}

/// Any two distinct identifiers are ordered one way, and never both ways.
pub proof fn lemma_lt_total(a: Seq<u16>, b: Seq<u16>)
    ensures
        a != b ==> (oid_lt(a, b) || oid_lt(b, a)),
        !(oid_lt(a, b) && oid_lt(b, a)),
    decreases a.len(),
{
    if a.len() > 0 && b.len() > 0 && a[0] == b[0] {
        lemma_lt_total(a.drop_first(), b.drop_first());
        if a != b {
            assert(a.drop_first() != b.drop_first()) by {
                if a.drop_first() == b.drop_first() {
                    assert(a =~= seq![a[0]] + a.drop_first());
                    assert(b =~= seq![b[0]] + b.drop_first());
                }
            }
        }
    } else if a.len() == 0 && b.len() == 0 {
        assert(a =~= b);
    }
}

/// The order agrees with numeric comparison: after a common prefix, the
/// first differing component decides, and a proper prefix comes first.
pub proof fn lemma_lt_numeric(p: Seq<u16>, a: Seq<u16>, b: Seq<u16>)
    ensures
        a.len() > 0 && b.len() > 0 ==> (oid_lt(p + a, p + b) <==> (a[0] < b[0] || (a[0] == b[0]
            && oid_lt(a.drop_first(), b.drop_first())))),
        a.len() == 0 ==> (oid_lt(p + a, p + b) <==> b.len() > 0),
    decreases p.len(),
{
    if p.len() > 0 {
        assert((p + a).drop_first() =~= p.drop_first() + a);
        assert((p + b).drop_first() =~= p.drop_first() + b);
        lemma_lt_numeric(p.drop_first(), a, b);
    } else {
        assert(p + a =~= a);
        assert(p + b =~= b);
    }
}

/// Lexicographic comparison of whole identifiers reduces to that of the
/// suffixes after a common prefix.
proof fn lemma_lt_suffix(a: Seq<u16>, b: Seq<u16>, i: int)
    requires
        0 <= i <= a.len(),
        i <= b.len(),
        a.subrange(0, i) == b.subrange(0, i),
    ensures
        oid_lt(a, b) == oid_lt(a.subrange(i, a.len() as int), b.subrange(i, b.len() as int)),
    decreases i,
{
    if i > 0 {
        assert(a[0] == a.subrange(0, i)[0]);
        assert(b[0] == b.subrange(0, i)[0]);
        assert(a.drop_first().subrange(0, i - 1) =~= a.subrange(0, i).drop_first());
        assert(b.drop_first().subrange(0, i - 1) =~= b.subrange(0, i).drop_first());
        lemma_lt_suffix(a.drop_first(), b.drop_first(), i - 1);
        assert(a.drop_first().subrange(i - 1, a.len() - 1) =~= a.subrange(i, a.len() as int));
        assert(b.drop_first().subrange(i - 1, b.len() - 1) =~= b.subrange(i, b.len() as int));
    } else {
        assert(a.subrange(0, a.len() as int) =~= a);
        assert(b.subrange(0, b.len() as int) =~= b);
    }
}

proof fn lemma_min_step(x: nat, d: nat)
    ensures
        ({
            let m: nat = if x > 65536 { 65536 } else { x };
            let l: nat = if 10 * m + d > 65536 { 65536 } else { 10 * m + d };
            l == if 10 * x + d > 65536 { 65536 } else { 10 * x + d }
        }),
{
}

impl OID {
    /// Parses the dotted textual form; one leading separator is optional.
    pub fn from_string(oid: &str) -> (r: Result<OID, AgentError>)
        ensures
            match parse_oid(oid@) {
                Some(v) => r matches Ok(o) && o@ == v,
                None => r == Err::<OID, AgentError>(AgentError::MalformedIdentifier),
            },
    {
        let n = oid.unicode_len();
        let start: usize = if n > 0 && oid.get_char(0) == '.' { 1 } else { 0 };
        let ghost b = body(oid@);
        assert(b =~= oid@.subrange(start as int, n as int));
        let mut comps: Vec<u16> = Vec::new();
        let mut cur: u32 = 0;
        let mut cur_len: usize = 0;
        let mut cur_digits = true;
        let mut ok = true;
        let mut i: usize = start;
        assert(b.subrange(0, 0) =~= Seq::<char>::empty());
        while i < n
            invariant
                n == oid@.len(),
                start <= i <= n,
                cur_len <= i,
                b == oid@.subrange(start as int, n as int),
                split_dots(b.subrange(0, i - start)).len() >= 1,
                cur_len == split_dots(b.subrange(0, i - start)).last().len(),
                cur_digits == all_digits(split_dots(b.subrange(0, i - start)).last()),
                cur_digits ==> cur == if digits_value(split_dots(b.subrange(0, i - start)).last()) > 65536 {
                    65536
                } else {
                    digits_value(split_dots(b.subrange(0, i - start)).last())
                },
                ok == forall|k: int|
                    0 <= k < split_dots(b.subrange(0, i - start)).len() - 1 ==> valid_component(#[trigger] split_dots(b.subrange(0, i - start))[k]),
                ok ==> comps@ =~= split_dots(b.subrange(0, i - start)).subrange(0, split_dots(b.subrange(0, i - start)).len() - 1).map_values(
                    |c: Seq<char>| component_value(c),
                ),
            decreases n - i,
        {
            let c = oid.get_char(i);
            let ghost pre = b.subrange(0, i - start);
            let ghost parts = split_dots(pre);
            let ghost next = b.subrange(0, i + 1 - start);
            assert(next.drop_last() =~= pre);
            assert(next.last() == c);
            if c == '.' {
                assert(split_dots(next) == parts.push(Seq::<char>::empty()));
                let valid_last = cur_len > 0 && cur_digits && cur <= COMPONENT_MAX;
                if ok && valid_last {
                    comps.push(cur as u16);
                }
                assert(valid_last == valid_component(parts.last()));
                let ghost old_ok = ok;
                ok = ok && valid_last;
                proof {
                    let np = split_dots(next);
                    if ok {
                        assert forall|k: int| 0 <= k < np.len() - 1 implies valid_component(#[trigger] np[k]) by {
                            assert(np[k] == parts[k]);
                        }
                    } else if !valid_last {
                        assert(np[parts.len() - 1] == parts.last());
                    } else {
                        let k = choose|k: int| 0 <= k < parts.len() - 1 && !valid_component(#[trigger] parts[k]);
                        assert(np[k] == parts[k]);
                    }
                }
                cur = 0;
                cur_len = 0;
                cur_digits = true;
                proof {
                    let np = split_dots(next);
                    assert(np.subrange(0, np.len() - 1) =~= parts);
                    assert(parts =~= parts.subrange(0, parts.len() - 1).push(parts.last()));
                    assert(all_digits(np.last()));
                    assert(digits_value(np.last()) == 0);
                }
            } else {
                let np = Ghost(split_dots(next));
                assert(np@ == parts.update(parts.len() - 1, parts.last().push(c)));
                assert(np@.last().drop_last() =~= parts.last());
                assert(np@.subrange(0, np@.len() - 1) =~= parts.subrange(0, parts.len() - 1));
                assert forall|k: int| 0 <= k < np@.len() - 1 implies np@[k] == parts[k] by {}
                if '0' <= c && c <= '9' {
                    let d = (c as u32) - ('0' as u32);
                    proof {
                        lemma_min_step(digits_value(parts.last()), d as nat);
                    }
                    if cur_digits {
                        cur = if cur * 10 + d > 65536 { 65536 } else { cur * 10 + d };
                    }
                } else {
                    cur_digits = false;
                }
                proof {
                    let l = np@.last();
                    if all_digits(l) {
                        assert forall|k: int| 0 <= k < parts.last().len() implies
                            is_digit(#[trigger] parts.last()[k]) by {
                            assert(l[k] == parts.last()[k]);
                        }
                    }
                    if all_digits(parts.last()) && is_digit(c) {
                        assert forall|k: int| 0 <= k < l.len() implies is_digit(#[trigger] l[k]) by {
                            if k < parts.last().len() {
                                assert(l[k] == parts.last()[k]);
                            }
                        }
                    }
                    assert(l[l.len() - 1] == c);
                }
                cur_len = cur_len + 1;
            }
            i += 1;
        }
        assert(b.subrange(0, n - start) =~= b);
        let valid_last = cur_len > 0 && cur_digits && cur <= COMPONENT_MAX;
        proof {
            let parts = split_dots(b);
            assert(valid_last == valid_component(parts.last()));
            if ok && valid_last {
                assert(forall|k: int| 0 <= k < parts.len() ==> valid_component(#[trigger] parts[k]));
            }
            if !(ok && valid_last) {
                if !valid_last {
                    assert(!valid_component(parts[parts.len() - 1]));
                } else {
                    let k = choose|k: int| 0 <= k < parts.len() - 1 && !valid_component(#[trigger] parts[k]);
                    assert(!valid_component(parts[k]));
                }
            }
        }
        if ok && valid_last {
            comps.push(cur as u16);
            proof {
                let parts = split_dots(b);
                assert(parts =~= parts.subrange(0, parts.len() - 1).push(parts.last()));
                assert(comps@ =~= parts.map_values(|c: Seq<char>| component_value(c)));
            }
            Ok(OID(comps))
        } else {
            Err(AgentError::MalformedIdentifier)
        }
    }

    /// A new identifier: this one with `u` appended.
    pub fn append(&self, u: u16) -> (r: OID)
        ensures
            r@ == self@.push(u),
    {
        let mut v: Vec<u16> = Vec::new();
        let mut i: usize = 0;
        while i < self.0.len()
            invariant
                i <= self@.len(),
                v@ == self@.subrange(0, i as int),
            decreases self@.len() - i,
        {
            v.push(self.0[i]);
            i += 1;
            assert(v@ =~= self@.subrange(0, i as int));
        }
        assert(self@.subrange(0, self@.len() as int) =~= self@);
        v.push(u);
        OID(v)
    }

    /// The textual form: a leading separator, then the components joined by
    /// separators.
    pub fn to_string(&self) -> (r: String)
        ensures
            r@ == render_oid(self@),
    {
        proof { reveal_strlit("."); }
        let mut s = String::new();
        if self.0.len() == 0 {
            s.append(".");
            return s;
        }
        let mut i: usize = 0;
        while i < self.0.len()
            invariant
                i <= self@.len(),
                s@ == dotted(self@.subrange(0, i as int)),
            decreases self@.len() - i,
        {
            s.append(".");
            push_unsigned(&mut s, self.0[i] as u64);
            proof {
                let w = self@.subrange(0, i + 1);
                assert(w.drop_last() =~= self@.subrange(0, i as int));
                assert(w.last() == self@[i as int]);
                reveal_strlit(".");
                assert(".".view() =~= seq!['.']);
            }
            i += 1;
        }
        assert(self@.subrange(0, self@.len() as int) =~= self@);
        s
    }

    /// Whether this identifier comes strictly before `other`.
    pub fn is_less(&self, other: &OID) -> (r: bool)
        ensures
            r == oid_lt(self@, other@),
    {
        let mut i: usize = 0;
        assert(self@.subrange(0, 0) =~= other@.subrange(0, 0));
        while i < self.0.len() && i < other.0.len()
            invariant
                i <= self@.len(),
                i <= other@.len(),
                self@.subrange(0, i as int) == other@.subrange(0, i as int),
            decreases self@.len() - i,
        {
            if self.0[i] != other.0[i] {
                proof {
                    lemma_lt_suffix(self@, other@, i as int);
                    let sa = self@.subrange(i as int, self@.len() as int);
                    let sb = other@.subrange(i as int, other@.len() as int);
                    assert(sa[0] == self@[i as int]);
                    assert(sb[0] == other@[i as int]);
                    assert(sa.len() > 0 && sb.len() > 0);
                    assert(oid_lt(sa, sb) == (sa[0] < sb[0]));
                    assert(oid_lt(self@, other@) == (self@[i as int] < other@[i as int]));
                }
                return self.0[i] < other.0[i];
            }
            assert(self@.subrange(0, i + 1) =~= self@.subrange(0, i as int).push(self@[i as int]));
            assert(other@.subrange(0, i + 1) =~= other@.subrange(0, i as int).push(other@[i as int]));
            i += 1;
        }
        proof { lemma_lt_suffix(self@, other@, i as int); }
        i == self.0.len() && i < other.0.len()
    }

    /// Whether the two identifiers hold the same components.
    pub fn is_same(&self, other: &OID) -> (r: bool)
        ensures
            r == (self@ == other@),
    {
        if self.0.len() != other.0.len() {
            return false;
        }
        let mut i: usize = 0;
        while i < self.0.len()
            invariant
                self@.len() == other@.len(),
                i <= self@.len(),
                forall|j: int| 0 <= j < i ==> self@[j] == other@[j],
            decreases self@.len() - i,
        {
            if self.0[i] != other.0[i] {
                return false;
            }
            i += 1;
        }
        assert(self@ =~= other@);
        true
    }
}

} // verus!
