use vstd::prelude::*;

verus! {

/// Aggregate result of a traversal: how many directories and how many
/// files were listed.
#[derive(PartialEq, Eq, Structural, Clone, Copy, Debug)]
pub struct Counts {
    pub dirs: usize,
    pub files: usize,
}

impl Counts {
    /// The empty result.
    pub fn zero() -> (r: Counts)
        ensures
            r.dirs == 0,
            r.files == 0,
    {
        Counts { dirs: 0, files: 0 }
    }

    /// Field-wise sum of two results.
    pub fn add(self, other: Counts) -> (r: Counts)
        requires
            self.dirs + other.dirs <= usize::MAX,
            self.files + other.files <= usize::MAX,
        ensures
            r.dirs == self.dirs + other.dirs,
            r.files == self.files + other.files,
    {
        Counts { dirs: self.dirs + other.dirs, files: self.files + other.files }
    }
}

/// The summed directory counts of a sequence of per-root results.
pub open spec fn total_dirs(s: Seq<Counts>) -> int
    decreases s.len(),
{
    if s.len() == 0 {
        0
    } else {
        total_dirs(s.drop_last()) + s.last().dirs
    }
}

/// The summed file counts of a sequence of per-root results.
pub open spec fn total_files(s: Seq<Counts>) -> int
    decreases s.len(),
{
    if s.len() == 0 {
        0
    } else {
        total_files(s.drop_last()) + s.last().files
    }
}

pub proof fn lemma_total_nonneg(s: Seq<Counts>)
    ensures
        total_dirs(s) >= 0,
        total_files(s) >= 0,
    decreases s.len(),
{
    if s.len() > 0 {
        lemma_total_nonneg(s.drop_last());
    }
}

/// Extending the summed prefix by one result adds its fields.
pub proof fn lemma_total_take_step(s: Seq<Counts>, i: int)
    requires
        0 <= i < s.len(),
    ensures
        total_dirs(s.take(i + 1)) == total_dirs(s.take(i)) + s[i].dirs,
        total_files(s.take(i + 1)) == total_files(s.take(i)) + s[i].files,
{
    assert(s.take(i + 1).drop_last() =~= s.take(i));
    assert(s.take(i + 1).last() == s[i]);
}

/// A partial sum never exceeds the full sum.
pub proof fn lemma_total_take_bound(s: Seq<Counts>, i: int)
    requires
        0 <= i <= s.len(),
    ensures
        total_dirs(s.take(i)) <= total_dirs(s),
        total_files(s.take(i)) <= total_files(s),
    decreases s.len() - i,
{
    if i == s.len() {
        assert(s.take(i) =~= s);
    } else {
        lemma_total_take_bound(s, i + 1);
        lemma_total_take_step(s, i);
    }
}

/// Aggregation splits over concatenation: the totals of two runs, one after
/// the other, equal the sum of the totals of each run alone.
pub proof fn lemma_total_concat(s1: Seq<Counts>, s2: Seq<Counts>)
    ensures
        total_dirs(s1 + s2) == total_dirs(s1) + total_dirs(s2),
        total_files(s1 + s2) == total_files(s1) + total_files(s2),
    decreases s2.len(),
{
    if s2.len() == 0 {
        assert(s1 + s2 =~= s1);
    } else {
        lemma_total_concat(s1, s2.drop_last());
        assert((s1 + s2).drop_last() =~= s1 + s2.drop_last());
        assert((s1 + s2).last() == s2.last());
    }
}

/// Aggregation over two roots does not depend on their order.
pub proof fn lemma_total_swap(a: Counts, b: Counts)
    ensures
        total_dirs(seq![a, b]) == total_dirs(seq![b, a]),
        total_files(seq![a, b]) == total_files(seq![b, a]),
{
    reveal_with_fuel(total_dirs, 3);
    reveal_with_fuel(total_files, 3);
    assert(seq![a, b].drop_last() =~= seq![a]);
    assert(seq![b, a].drop_last() =~= seq![b]);
    assert(seq![a].drop_last() =~= Seq::<Counts>::empty());
    assert(seq![b].drop_last() =~= Seq::<Counts>::empty());
}

/// Sums per-root results into the final totals.
pub fn aggregate(per_root: &Vec<Counts>) -> (r: Counts)
    requires
        total_dirs(per_root@) <= usize::MAX,
        total_files(per_root@) <= usize::MAX,
    ensures
        r.dirs == total_dirs(per_root@),
        r.files == total_files(per_root@),
{
    let mut dirs: usize = 0;
    let mut files: usize = 0;
    let mut i: usize = 0;
    proof {
        assert(per_root@.take(0) =~= Seq::empty());
    }
    while i < per_root.len()
        invariant
            i <= per_root@.len(),
            dirs == total_dirs(per_root@.take(i as int)),
            files == total_files(per_root@.take(i as int)),
            total_dirs(per_root@) <= usize::MAX,
            total_files(per_root@) <= usize::MAX,
        decreases per_root@.len() - i,
    {
        proof {
            lemma_total_take_step(per_root@, i as int);
            lemma_total_take_bound(per_root@, i + 1);
            lemma_total_nonneg(per_root@.take(i as int));
        }
        dirs = dirs + per_root[i].dirs;
        files = files + per_root[i].files;
        i = i + 1;
    }
    proof {
        assert(per_root@.take(per_root@.len() as int) =~= per_root@);
    }
    Counts { dirs, files }
}

/// The character for one decimal digit.
pub open spec fn digit_char(d: nat) -> char {
    if d == 0 {
        '0'
    } else if d == 1 {
        '1'
    } else if d == 2 {
        '2'
    } else if d == 3 {
        '3'
    } else if d == 4 {
        '4'
    } else if d == 5 {
        '5'
    } else if d == 6 {
        '6'
    } else if d == 7 {
        '7'
    } else if d == 8 {
        '8'
    } else {
        '9'
    }
}

/// The decimal digits of a number, most significant first.
pub open spec fn dec_rep(n: nat) -> Seq<char>
    decreases n,
{
    if n < 10 {
        seq![digit_char(n)]
    } else {
        dec_rep(n / 10).push(digit_char(n % 10))
    }
}

fn digit_str(d: usize) -> (r: &'static str)
    requires
        d < 10,
    ensures
        r@ == seq![digit_char(d as nat)],
{
    proof {
        reveal_strlit("0");
        reveal_strlit("1");
        reveal_strlit("2");
        reveal_strlit("3");
        reveal_strlit("4");
        reveal_strlit("5");
        reveal_strlit("6");
        reveal_strlit("7");
        reveal_strlit("8");
        reveal_strlit("9");
    }
    if d == 0 {
        "0"
    } else if d == 1 {
        "1"
    } else if d == 2 {
        "2"
    } else if d == 3 {
        "3"
    } else if d == 4 {
        "4"
    } else if d == 5 {
        "5"
    } else if d == 6 {
        "6"
    } else if d == 7 {
        "7"
    } else if d == 8 {
        "8"
    } else {
        "9"
    }
}

/// Writes a number in decimal.
pub fn usize_to_string(n: usize) -> (r: String)
    ensures
        r@ == dec_rep(n as nat),
    decreases n,
{
    if n < 10 {
        digit_str(n).to_owned()
    } else {
        let mut r = usize_to_string(n / 10);
        r.append(digit_str(n % 10));
        proof {
            assert(dec_rep((n as nat) / 10).push(digit_char((n as nat) % 10)) =~= dec_rep(
                (n as nat) / 10,
            ) + seq![digit_char((n as nat) % 10)]);
        }
        r
    }
}

/// The summary printed after all roots, preceded by a blank line.
pub open spec fn summary_model(c: Counts) -> Seq<char> {
    "\n"@ + dec_rep(c.dirs as nat) + " directories, "@ + dec_rep(c.files as nat) + " files"@
}

/// Formats the final summary line.
pub fn summary_line(c: Counts) -> (r: String)
    ensures
        r@ == summary_model(c),
{
    let mut r = "\n".to_owned();
    let d = usize_to_string(c.dirs);
    r.append(d.as_str());
    r.append(" directories, ");
    let f = usize_to_string(c.files);
    r.append(f.as_str());
    r.append(" files");
    r
}

} // verus!
