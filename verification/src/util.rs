//! Keys, mutations, intervals and the names of table files.

use vstd::prelude::*;
use vstd::string::StringExecFns;
use std::collections::Bound;

verus! {

/// Keys and values are byte strings.
pub type Buf = Vec<u8>;

/// The number that names a table file.
#[derive(Copy, Clone, Debug, PartialEq, Eq, Hash, Structural)]
pub struct TableId(pub u64);

/// What is recorded against a key: a value, or a tombstone that hides older
/// values of the key.
#[derive(Debug)]
pub enum Mutation {
    Put(Buf),
    Delete,
}

/// A mutation as a mathematical value.
pub enum MutationView {
    Put(Seq<u8>),
    Delete,
}

impl View for Mutation {
    type V = MutationView;

    open spec fn view(&self) -> MutationView {
        match self {
            Mutation::Put(v) => MutationView::Put(v@),
            Mutation::Delete => MutationView::Delete,
        }
    }
}

impl Clone for Mutation {
    fn clone(&self) -> (r: Mutation)
        ensures
            r@ == self@,
    {
        match self {
            Mutation::Put(v) => Mutation::Put(copy_bytes(v.as_slice())),
            Mutation::Delete => Mutation::Delete,
        }
    }
}

/// A key with what is recorded against it, as a mathematical value.
pub type Item = (Seq<u8>, MutationView);

/// An owned copy of `b`.
pub fn copy_bytes(b: &[u8]) -> (r: Vec<u8>)
    ensures
        r@ == b@,
{
    vstd::slice::slice_to_vec(b)
}

/// The three outcomes of comparing two keys.
#[derive(Copy, Clone, Debug, PartialEq, Eq, Structural)]
pub enum KeyOrder {
    Less,
    Equal,
    Greater,
}

/// Lexicographic order on byte strings, as decided from index `i` on, the
/// bytes before `i` being equal.
pub open spec fn lex_lt_from(a: Seq<u8>, b: Seq<u8>, i: int) -> bool
    decreases a.len() - i,
{
    if i < 0 || i >= b.len() {
        false
    } else if i >= a.len() {
        true
    } else if a[i] != b[i] {
        a[i] < b[i]
    } else {
        lex_lt_from(a, b, i + 1)
    }
}

/// `a` comes strictly before `b` in lexicographic order on unsigned bytes.
pub open spec fn lex_lt(a: Seq<u8>, b: Seq<u8>) -> bool {
    lex_lt_from(a, b, 0)
}

/// `a` comes before `b` or is `b`.
pub open spec fn lex_le(a: Seq<u8>, b: Seq<u8>) -> bool {
    lex_lt(a, b) || a == b
}

pub proof fn lemma_lex_from_trichotomy(a: Seq<u8>, b: Seq<u8>, i: int)
    requires
        0 <= i <= a.len(),
        i <= b.len(),
        a.take(i) == b.take(i),
    ensures
        lex_lt_from(a, b, i) || lex_lt_from(b, a, i) || a == b,
        !(lex_lt_from(a, b, i) && lex_lt_from(b, a, i)),
        a == b ==> !lex_lt_from(a, b, i),
    decreases a.len() - i,
{
    if i >= b.len() {
        if i >= a.len() {
            assert(a.take(i) == a);
            assert(b.take(i) == b);
        }
    } else if i >= a.len() {
    } else if a[i] != b[i] {
    } else {
        assert(a.take(i + 1) =~= a.take(i).push(a[i]));
        assert(b.take(i + 1) =~= b.take(i).push(b[i]));
        lemma_lex_from_trichotomy(a, b, i + 1);
    }
}

pub proof fn lemma_lex_from_transitive(a: Seq<u8>, b: Seq<u8>, c: Seq<u8>, i: int)
    requires
        0 <= i,
        lex_lt_from(a, b, i),
        lex_lt_from(b, c, i),
    ensures
        lex_lt_from(a, c, i),
    decreases a.len() - i,
{
    if i < a.len() && a[i] == b[i] && b[i] == c[i] {
        lemma_lex_from_transitive(a, b, c, i + 1);
    }
}

/// Of two keys, exactly one of these holds: the first is smaller, they are
/// equal, the second is smaller.
pub proof fn lemma_lex_trichotomy(a: Seq<u8>, b: Seq<u8>)
    ensures
        lex_lt(a, b) || lex_lt(b, a) || a == b,
        !(lex_lt(a, b) && lex_lt(b, a)),
        !lex_lt(a, a),
        a == b ==> !lex_lt(a, b),
{
    assert(a.take(0) =~= b.take(0));
    lemma_lex_from_trichotomy(a, b, 0);
    assert(a.take(0) =~= a.take(0));
    lemma_lex_from_trichotomy(a, a, 0);
}

/// The order on keys is transitive.
pub proof fn lemma_lex_transitive(a: Seq<u8>, b: Seq<u8>, c: Seq<u8>)
    requires
        lex_lt(a, b),
        lex_lt(b, c),
    ensures
        lex_lt(a, c),
{
    lemma_lex_from_transitive(a, b, c, 0);
}

/// Transitivity where either step may be an equality.
pub proof fn lemma_lex_le_transitive(a: Seq<u8>, b: Seq<u8>, c: Seq<u8>)
    requires
        lex_le(a, b),
        lex_le(b, c),
    ensures
        lex_le(a, c),
        lex_lt(a, b) || lex_lt(b, c) ==> lex_lt(a, c),
{
    if lex_lt(a, b) && lex_lt(b, c) {
        lemma_lex_transitive(a, b, c);
    }
}

/// Compares two keys in lexicographic order on unsigned bytes.
pub fn key_order(a: &[u8], b: &[u8]) -> (r: KeyOrder)
    ensures
        r == KeyOrder::Less <==> lex_lt(a@, b@),
        r == KeyOrder::Equal <==> a@ == b@,
        r == KeyOrder::Greater <==> lex_lt(b@, a@),
{
    let mut i: usize = 0;
    proof {
        assert(a@.take(0) =~= b@.take(0));
        lemma_lex_trichotomy(a@, b@);
    }
    while i < a.len() && i < b.len()
        invariant
            i <= a.len(),
            i <= b.len(),
            a@.take(i as int) == b@.take(i as int),
            lex_lt(a@, b@) == lex_lt_from(a@, b@, i as int),
            lex_lt(b@, a@) == lex_lt_from(b@, a@, i as int),
        decreases a.len() - i,
    {
        if a[i] < b[i] {
            proof {
                lemma_lex_from_trichotomy(a@, b@, i as int);
            }
            return KeyOrder::Less;
        }
        if a[i] > b[i] {
            proof {
                lemma_lex_from_trichotomy(a@, b@, i as int);
            }
            return KeyOrder::Greater;
        }
        proof {
            assert(a@.take(i + 1) =~= a@.take(i as int).push(a@[i as int]));
            assert(b@.take(i + 1) =~= b@.take(i as int).push(b@[i as int]));
        }
        i += 1;
    }
    proof {
        lemma_lex_from_trichotomy(a@, b@, i as int);
    }
    if i < b.len() {
        KeyOrder::Less
    } else if i < a.len() {
        KeyOrder::Greater
    } else {
        KeyOrder::Equal
    }
}

/// Whether `a` comes strictly before `b`.
pub fn key_lt(a: &[u8], b: &[u8]) -> (r: bool)
    ensures
        r == lex_lt(a@, b@),
{
    proof {
        lemma_lex_trichotomy(a@, b@);
    }
    match key_order(a, b) {
        KeyOrder::Less => true,
        _ => false,
    }
}

/// Whether `a` comes before `b` or is `b`.
pub fn key_le(a: &[u8], b: &[u8]) -> (r: bool)
    ensures
        r == lex_le(a@, b@),
{
    proof {
        lemma_lex_trichotomy(a@, b@);
    }
    match key_order(a, b) {
        KeyOrder::Greater => false,
        _ => true,
    }
}

/// `std::collections::Bound`: an end of a range, with its three variants.
#[verifier::external_type_specification]
#[verifier::reject_recursive_types(T)]
pub struct ExBound<T>(Bound<T>);

/// A range of keys, each end open, closed or absent.
#[verifier::reject_recursive_types(T)]
pub struct Interval<T> {
    pub lower: Bound<T>,
    pub upper: Bound<T>,
}

/// Whether key `x` lies under the upper bound `bound`.
pub open spec fn under_upper(x: Seq<u8>, bound: Bound<Buf>) -> bool {
    match bound {
        Bound::Excluded(s) => lex_lt(x, s@),
        Bound::Included(s) => lex_le(x, s@),
        Bound::Unbounded => true,
    }
}

/// Whether key `x` lies over the lower bound `bound`.
pub open spec fn over_lower(x: Seq<u8>, bound: Bound<Buf>) -> bool {
    match bound {
        Bound::Excluded(s) => lex_lt(s@, x),
        Bound::Included(s) => lex_le(s@, x),
        Bound::Unbounded => true,
    }
}

/// Whether key `x` lies inside `interval`.
pub open spec fn in_interval(x: Seq<u8>, interval: Interval<Buf>) -> bool {
    over_lower(x, interval.lower) && under_upper(x, interval.upper)
}

pub fn below_upper_bound(x: &[u8], bound: &Bound<Buf>) -> (r: bool)
    ensures
        r == under_upper(x@, *bound),
{
    match bound {
        Bound::Excluded(s) => key_lt(x, s.as_slice()),
        Bound::Included(s) => key_le(x, s.as_slice()),
        Bound::Unbounded => true,
    }
}

pub fn above_lower_bound(x: &[u8], bound: &Bound<Buf>) -> (r: bool)
    ensures
        r == over_lower(x@, *bound),
{
    match bound {
        Bound::Excluded(s) => key_lt(s.as_slice(), x),
        Bound::Included(s) => key_le(s.as_slice(), x),
        Bound::Unbounded => true,
    }
}

/// The same bound, borrowing the key instead of owning it.
pub fn ref_bound(x: &Bound<Buf>) -> (r: Bound<&[u8]>)
    ensures
        match (*x, r) {
            (Bound::Excluded(a), Bound::Excluded(b)) => a@ == b@,
            (Bound::Included(a), Bound::Included(b)) => a@ == b@,
            (Bound::Unbounded, Bound::Unbounded) => true,
            _ => false,
        },
{
    match x {
        Bound::Excluded(b) => Bound::Excluded(b.as_slice()),
        Bound::Included(b) => Bound::Included(b.as_slice()),
        Bound::Unbounded => Bound::Unbounded,
    }
}

/// Two bounds of the same kind at the same key.
pub open spec fn same_bound(a: Bound<Buf>, b: Bound<Buf>) -> bool {
    match (a, b) {
        (Bound::Excluded(x), Bound::Excluded(y)) => x@ == y@,
        (Bound::Included(x), Bound::Included(y)) => x@ == y@,
        (Bound::Unbounded, Bound::Unbounded) => true,
        _ => false,
    }
}

/// Two intervals with the same bounds.
pub open spec fn same_interval(a: Interval<Buf>, b: Interval<Buf>) -> bool {
    same_bound(a.lower, b.lower) && same_bound(a.upper, b.upper)
}

/// An owned copy of a bound.
pub fn clone_bound(x: &Bound<Buf>) -> (r: Bound<Buf>)
    ensures
        same_bound(r, *x),
{
    match x {
        Bound::Excluded(b) => Bound::Excluded(copy_bytes(b.as_slice())),
        Bound::Included(b) => Bound::Included(copy_bytes(b.as_slice())),
        Bound::Unbounded => Bound::Unbounded,
    }
}

/// An owned copy of an interval.
pub fn clone_interval(x: &Interval<Buf>) -> (r: Interval<Buf>)
    ensures
        same_interval(r, *x),
{
    Interval { lower: clone_bound(&x.lower), upper: clone_bound(&x.upper) }
}

/// The decimal digit of a number below ten.
pub open spec fn digit_char(d: nat) -> char {
    if d == 0 {
        '0'
    } else if d == 1 {
        '1'
    } else if d == 2 {
        '2'
    } else if d == 3 {
        '3'
    } else if d == 4 {
        '4'
    } else if d == 5 {
        '5'
    } else if d == 6 {
        '6'
    } else if d == 7 {
        '7'
    } else if d == 8 {
        '8'
    } else {
        '9'
    }
}

/// The decimal digits of a number, without leading zeros.
pub open spec fn decimal(n: nat) -> Seq<char>
    decreases n,
{
    if n < 10 {
        seq![digit_char(n)]
    } else {
        decimal(n / 10).push(digit_char(n % 10))
    }
}

/// The name of the file of a table: the number of the table in decimal
/// digits, and `.tab`.
pub open spec fn table_name(n: u64) -> Seq<char> {
    decimal(n as nat) + seq!['.', 't', 'a', 'b']
}

/// `format!` with a `u64`: its decimal digits, without leading zeros.
#[verifier::external_body]
fn decimal_string(n: u64) -> (r: String)
    ensures
        r@ == decimal(n as nat),
{
    format!("{}", n)
}

/// The name of the file of table `table_id`.
pub fn table_filename(table_id: TableId) -> (r: String)
    ensures
        r@ == table_name(table_id.0),
{
    let mut name: String = decimal_string(table_id.0);
    proof {
        reveal_strlit(".tab");
    }
    name.append(".tab");
    assert(".tab"@ =~= seq!['.', 't', 'a', 'b']);
    name
}

/// The path of the file of table `table_id` in the directory `dir`.
pub fn table_filepath(dir: &str, table_id: TableId) -> (r: String)
    ensures
        r@ == dir@ + seq!['/'] + table_name(table_id.0),
{
    let mut path: String = dir.to_owned();
    proof {
        reveal_strlit("/");
    }
    path.append("/");
    let name: String = table_filename(table_id);
    path.append(name.as_str());
    assert("/"@ =~= seq!['/']);
    path
}

/// The path of the log of the table of contents in the directory `dir`.
pub fn toc_filename(dir: &str) -> (r: String)
    ensures
        r@ == dir@ + seq!['/', 't', 'o', 'c'],
{
    let mut path: String = dir.to_owned();
    proof {
        reveal_strlit("/toc");
    }
    path.append("/toc");
    assert("/toc"@ =~= seq!['/', 't', 'o', 'c']);
    path
}

/// `str::parse::<u64>`: the number that `s` is the decimal digits of. The
/// decimal digits of a number of 64 bits parse to that number.
#[verifier::external_body]
fn parse_u64(s: &str) -> (r: Option<u64>)
    ensures
        forall|n: u64| s@ == decimal(n as nat) ==> r == Some(n),
{
    s.parse::<u64>().ok()
}

/// `str::strip_suffix`: `name` without `suffix` at its end, if it ends so.
#[verifier::external_body]
fn strip_suffix<'a>(name: &'a str, suffix: &str) -> (r: Option<&'a str>)
    ensures
        match r {
            Some(front) => name@ == front@ + suffix@,
            None => forall|front: Seq<char>| name@ != front + suffix@,
        },
{
    name.strip_suffix(suffix)
}

/// The number of the table whose file has the name `name`, if `name` is
/// the name of a table file: the decimal digits of a number of 64 bits,
/// without leading zeros, and `.tab`.
pub fn parse_tablefile_name(name: &str) -> (r: Option<TableId>)
    ensures
        match r {
            Some(id) => name@ == table_name(id.0),
            None => forall|n: u64| name@ != table_name(n),
        },
{
    proof {
        reveal_strlit(".tab");
    }
    let ghost tab = seq!['.', 't', 'a', 'b'];
    assert(".tab"@ =~= tab);
    let front: &str = match strip_suffix(name, ".tab") {
        Some(f) => f,
        None => {
            return None;
        },
    };
    proof {
        assert forall|n: u64| name@ == table_name(n) implies front@ == decimal(n as nat) by {
            let d = decimal(n as nat);
            assert((front@ + tab).len() == front@.len() + 4);
            assert((d + tab).len() == d.len() + 4);
            assert(front@.len() == d.len());
            assert(front@ =~= (front@ + tab).subrange(0, front@.len() as int));
            assert(d =~= (d + tab).subrange(0, d.len() as int));
        }
    }
    match parse_u64(front) {
        Some(x) => {
            // Several strings can parse to one number: only the one that is
            // written as the name of the table's file counts.
            let written: String = table_filename(TableId(x));
            let given: String = name.to_owned();
            if written == given {
                Some(TableId(x))
            } else {
                None
            }
        },
        None => None,
    }
}

} // verus!
