//! Version identities: four numbers, ordered component by component.

use vstd::prelude::*;

verus! {

/// The identity of one release: `major.minor.patch.build`.
///
/// Two descriptors are equal exactly when all four components are equal, and
/// they are ordered lexicographically, `major` first.
#[derive(Clone, Copy, Debug, PartialEq, Eq, Structural, Hash, PartialOrd, Ord)]
pub struct VersionDescriptor {
    pub major: usize,
    pub minor: usize,
    pub patch: usize,
    pub build: usize,
}

/// The character of the decimal digit `d`.
pub open spec fn digit(d: int) -> char {
    if d == 0 {
        '0'
    } else if d == 1 {
        '1'
    } else if d == 2 {
        '2'
    } else if d == 3 {
        '3'
    } else if d == 4 {
        '4'
    } else if d == 5 {
        '5'
    } else if d == 6 {
        '6'
    } else if d == 7 {
        '7'
    } else if d == 8 {
        '8'
    } else {
        '9'
    }
}

/// The decimal digits of `n`, most significant first, without leading zeros.
pub open spec fn decimal(n: nat) -> Seq<char>
    decreases n,
{
    if n < 10 {
        seq![digit(n as int)]
    } else {
        decimal(n / 10).push(digit((n % 10) as int))
    }
}

/// No character of `s` is a dot.
pub open spec fn dotless(s: Seq<char>) -> bool {
    forall|i: int| 0 <= i < s.len() ==> s[i] != '.'
}

impl VersionDescriptor {
    /// The strict lexicographic order on descriptors.
    pub open spec fn precedes(self, other: Self) -> bool {
        ||| self.major < other.major
        ||| self.major == other.major && self.minor < other.minor
        ||| self.major == other.major && self.minor == other.minor && self.patch < other.patch
        ||| self.major == other.major && self.minor == other.minor && self.patch == other.patch
            && self.build < other.build
    }

    /// The textual form: the first three components in decimal, joined by
    /// dots, followed by a dot and the build number when that is not zero.
    pub open spec fn text(self) -> Seq<char> {
        decimal(self.major as nat).push('.') + (decimal(self.minor as nat).push('.') + self.tail())
    }

    /// The end of the textual form, from the patch number on.
    pub open spec fn tail(self) -> Seq<char> {
        if self.build == 0 {
            decimal(self.patch as nat)
        } else {
            decimal(self.patch as nat).push('.') + decimal(self.build as nat)
        }
    }

    /// The descriptor with these four components.
    pub fn new(major: usize, minor: usize, patch: usize, build: usize) -> (d: Self)
        ensures
            d.major == major,
            d.minor == minor,
            d.patch == patch,
            d.build == build,
    {
        VersionDescriptor { major, minor, patch, build }
    }

    /// Whether `self` comes strictly before `other`.
    pub fn is_before(&self, other: &Self) -> (b: bool)
        ensures
            b == self.precedes(*other),
    {
        emver_lt(self, other)
    }

    /// Whether `self` comes strictly after `other`.
    pub fn is_after(&self, other: &Self) -> (b: bool)
        ensures
            b == other.precedes(*self),
    {
        emver_lt(other, self)
    }

    /// The textual form of the descriptor, for diagnostics.
    pub fn render(&self) -> (s: String)
        ensures
            s@ == self.text(),
    {
        emver_to_string(self)
    }
}

/// `emver::Version`'s derived `PartialOrd::lt`, on the two versions that
/// `emver::Version::new` builds from the descriptors' components. Trusted:
/// the derived order of a tuple struct compares its fields from first to last,
/// which is `precedes`.
#[verifier::external_body]
fn emver_lt(a: &VersionDescriptor, b: &VersionDescriptor) -> (r: bool)
    ensures
        r == a.precedes(*b),
{
    emver::Version::new(a.major, a.minor, a.patch, a.build)
        < emver::Version::new(b.major, b.minor, b.patch, b.build)
}

/// `emver::Version`'s `Display`, through `to_string`. Trusted: it writes
/// `major.minor.patch` in decimal, and `.revision` after it unless the
/// revision is zero.
#[verifier::external_body]
fn emver_to_string(d: &VersionDescriptor) -> (s: String)
    ensures
        s@ == d.text(),
{
    emver::Version::new(d.major, d.minor, d.patch, d.build).to_string()
}

/// `precedes` is a strict total order: nothing precedes itself, it is
/// transitive, and of two different descriptors exactly one precedes the
/// other.
pub proof fn lemma_precedes_is_strict_total_order(
    a: VersionDescriptor,
    b: VersionDescriptor,
    c: VersionDescriptor,
)
    ensures
        !a.precedes(a),
        a.precedes(b) && b.precedes(c) ==> a.precedes(c),
        a.precedes(b) ==> !b.precedes(a),
        a != b ==> a.precedes(b) || b.precedes(a),
{
}

/// A decimal numeral is not empty and holds no dot.
pub proof fn lemma_decimal_is_dotless(n: nat)
    ensures
        decimal(n).len() > 0,
        dotless(decimal(n)),
    decreases n,
{
    if n >= 10 {
        lemma_decimal_is_dotless(n / 10);
    }
}

/// Different numbers have different decimal numerals.
pub proof fn lemma_decimal_is_injective(a: nat, b: nat)
    requires
        decimal(a) == decimal(b),
    ensures
        a == b,
    decreases a,
{
    lemma_decimal_is_dotless(a / 10);
    lemma_decimal_is_dotless(b / 10);
    if a < 10 && b < 10 {
        assert(decimal(a)[0] == digit(a as int));
        assert(decimal(b)[0] == digit(b as int));
    } else if a < 10 {
        assert(decimal(a).len() == 1);
        assert(decimal(b).len() == decimal(b / 10).len() + 1);
    } else if b < 10 {
        assert(decimal(b).len() == 1);
        assert(decimal(a).len() == decimal(a / 10).len() + 1);
    } else {
        let x = decimal(a / 10);
        let y = decimal(b / 10);
        let p = digit((a % 10) as int);
        let q = digit((b % 10) as int);
        assert(decimal(a) == x.push(p));
        assert(decimal(b) == y.push(q));
        assert(x.push(p).drop_last() =~= x);
        assert(y.push(q).drop_last() =~= y);
        assert(x.push(p).last() == p);
        assert(y.push(q).last() == q);
        assert(x == y);
        assert(p == q);
        lemma_decimal_is_injective(a / 10, b / 10);
        assert(a % 10 == b % 10);
    }
}

/// A text is cut at its first dot in one way only: two dotless heads, each
/// followed by a dot and a rest, give the same text only if the heads are
/// the same and the rests are.
pub proof fn lemma_cut_at_first_dot(a: Seq<char>, r: Seq<char>, b: Seq<char>, t: Seq<char>)
    requires
        dotless(a),
        dotless(b),
        a.push('.') + r == b.push('.') + t,
    ensures
        a == b,
        r == t,
{
    let left = a.push('.') + r;
    let right = b.push('.') + t;
    if a.len() < b.len() {
        assert(left[a.len() as int] == '.');
        assert(right[a.len() as int] == b[a.len() as int]);
    } else if b.len() < a.len() {
        assert(right[b.len() as int] == '.');
        assert(left[b.len() as int] == a[b.len() as int]);
    }
    assert(a.len() == b.len());
    assert(left.len() == right.len());
    assert forall|i: int| 0 <= i < a.len() implies a[i] == b[i] by {
        assert(left[i] == a[i]);
        assert(right[i] == b[i]);
    }
    assert(a =~= b);
    assert(left.len() == a.len() + 1 + r.len());
    assert(right.len() == b.len() + 1 + t.len());
    assert forall|i: int| 0 <= i < r.len() implies r[i] == t[i] by {
        assert(left[a.len() + 1 + i] == r[i]);
        assert(right[b.len() + 1 + i] == t[i]);
    }
    assert(r =~= t);
}

/// The textual form is unambiguous: different descriptors have different
/// texts.
pub proof fn lemma_text_is_unambiguous(a: VersionDescriptor, b: VersionDescriptor)
    requires
        a.text() == b.text(),
    ensures
        a == b,
{
    lemma_decimal_is_dotless(a.major as nat);
    lemma_decimal_is_dotless(b.major as nat);
    lemma_decimal_is_dotless(a.minor as nat);
    lemma_decimal_is_dotless(b.minor as nat);
    lemma_decimal_is_dotless(a.patch as nat);
    lemma_decimal_is_dotless(b.patch as nat);
    lemma_decimal_is_dotless(a.build as nat);
    lemma_decimal_is_dotless(b.build as nat);
    lemma_cut_at_first_dot(
        decimal(a.major as nat),
        decimal(a.minor as nat).push('.') + a.tail(),
        decimal(b.major as nat),
        decimal(b.minor as nat).push('.') + b.tail(),
    );
    lemma_decimal_is_injective(a.major as nat, b.major as nat);
    lemma_cut_at_first_dot(
        decimal(a.minor as nat),
        a.tail(),
        decimal(b.minor as nat),
        b.tail(),
    );
    lemma_decimal_is_injective(a.minor as nat, b.minor as nat);
    let pa = decimal(a.patch as nat);
    let pb = decimal(b.patch as nat);
    if a.build == 0 && b.build == 0 {
    } else if a.build != 0 && b.build != 0 {
        lemma_cut_at_first_dot(pa, decimal(a.build as nat), pb, decimal(b.build as nat));
        lemma_decimal_is_injective(a.build as nat, b.build as nat);
    } else if a.build == 0 {
        assert(b.tail()[pb.len() as int] == '.');
        assert(a.tail()[pb.len() as int] != '.');
    } else {
        assert(a.tail()[pa.len() as int] == '.');
        assert(b.tail()[pa.len() as int] != '.');
    }
    lemma_decimal_is_injective(a.patch as nat, b.patch as nat);
}

} // verus!
