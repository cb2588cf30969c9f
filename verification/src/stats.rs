//! Counter triples: the plain totals that are reported, and their rendering.

use vstd::prelude::*;
use vstd::string::StringExecFns;

verus! {

/// Number of shards in the counter pool.
pub const NUM_STATS: usize = 12;

/// The values of a sequence of items, in the same order.
pub open spec fn views<T: View>(items: Seq<T>) -> Seq<T::V> {
    Seq::new(items.len(), |i: int| items[i]@)
}

/// Mathematical value of a counter triple.
pub struct Counts {
    pub file: nat,
    pub sym: nat,
    pub dir: nat,
}

impl Counts {
    /// The triple with every counter at zero.
    pub open spec fn zero() -> Counts {
        Counts { file: 0, sym: 0, dir: 0 }
    }

    /// Componentwise sum.
    pub open spec fn plus(self, other: Counts) -> Counts {
        Counts {
            file: self.file + other.file,
            sym: self.sym + other.sym,
            dir: self.dir + other.dir,
        }
    }

    /// Every counter can be held in 64 bits.
    pub open spec fn fits(self) -> bool {
        self.file <= u64::MAX && self.sym <= u64::MAX && self.dir <= u64::MAX
    }

    /// Number of entries counted, of any kind.
    pub open spec fn entries(self) -> nat {
        self.file + self.sym + self.dir
    }
}

/// The decimal digit of a number below ten.
pub open spec fn digit(d: nat) -> char {
    if d == 0 {
        '0'
    } else if d == 1 {
        '1'
    } else if d == 2 {
        '2'
    } else if d == 3 {
        '3'
    } else if d == 4 {
        '4'
    } else if d == 5 {
        '5'
    } else if d == 6 {
        '6'
    } else if d == 7 {
        '7'
    } else if d == 8 {
        '8'
    } else {
        '9'
    }
}

/// A number in decimal digits, the most significant first, without leading
/// zeros.
pub open spec fn decimal(n: nat) -> Seq<char>
    decreases n,
{
    if n < 10 {
        seq![digit(n)]
    } else {
        decimal(n / 10).push(digit(n % 10))
    }
}

/// The ending of a noun that names `n` things: none for one, `s` for any
/// other number.
pub open spec fn plural(n: nat) -> Seq<char> {
    if n == 1 {
        Seq::empty()
    } else {
        "s"@
    }
}

/// The counters in words, as in `3 files, 1 symlink, and 0 dirs`.
pub open spec fn summary(counts: Counts) -> Seq<char> {
    decimal(counts.file) + " file"@ + plural(counts.file) + ", "@ + decimal(counts.sym)
        + " symlink"@ + plural(counts.sym) + ", and "@ + decimal(counts.dir) + " dir"@ + plural(
        counts.dir,
    )
}

/// The digit of a number below ten, as text.
fn digit_text(d: u64) -> (text: &'static str)
    requires
        d < 10,
    ensures
        text@ == seq![digit(d as nat)],
{
    proof {
        reveal_strlit("0");
        reveal_strlit("1");
        reveal_strlit("2");
        reveal_strlit("3");
        reveal_strlit("4");
        reveal_strlit("5");
        reveal_strlit("6");
        reveal_strlit("7");
        reveal_strlit("8");
        reveal_strlit("9");
    }
    let text = if d == 0 {
        "0"
    } else if d == 1 {
        "1"
    } else if d == 2 {
        "2"
    } else if d == 3 {
        "3"
    } else if d == 4 {
        "4"
    } else if d == 5 {
        "5"
    } else if d == 6 {
        "6"
    } else if d == 7 {
        "7"
    } else if d == 8 {
        "8"
    } else {
        "9"
    };
    assert(text@ =~= seq![digit(d as nat)]);
    text
}

/// Appends a number in decimal digits.
fn append_decimal(text: &mut String, n: u64)
    ensures
        final(text)@ == old(text)@ + decimal(n as nat),
    decreases n,
{
    if n >= 10 {
        append_decimal(text, n / 10);
    }
    text.append(digit_text(n % 10));
    assert(text@ =~= old(text)@ + decimal(n as nat));
}

/// Appends a number and the noun for what it counts, in the singular for
/// one and in the plural for any other number.
fn append_counted(text: &mut String, n: u64, noun: &str)
    ensures
        final(text)@ == old(text)@ + decimal(n as nat) + noun@ + plural(n as nat),
{
    append_decimal(text, n);
    text.append(noun);
    if n != 1 {
        text.append("s");
    }
    assert(text@ =~= old(text)@ + decimal(n as nat) + noun@ + plural(n as nat));
}

/// Accumulated file, symlink and directory counts.
#[derive(Copy, Clone, Debug, PartialEq, Eq, Structural)]
pub struct DisplayStats {
    /// file count
    pub file: u64,
    /// symlink count
    pub sym: u64,
    /// directory count
    pub dir: u64,
}

impl View for DisplayStats {
    type V = Counts;

    open spec fn view(&self) -> Counts {
        Counts { file: self.file as nat, sym: self.sym as nat, dir: self.dir as nat }
    }
}

impl DisplayStats {
    /// A triple with every counter at zero.
    pub fn new() -> (stats: DisplayStats)
        ensures
            stats@ == Counts::zero(),
    {
        DisplayStats { file: 0, sym: 0, dir: 0 }
    }

    /// The counters in words, each noun in the singular for one and in the
    /// plural for any other number.
    pub fn to_string(&self) -> (text: String)
        ensures
            text@ == summary(self@),
    {
        let mut text = String::new();
        append_counted(&mut text, self.file, " file");
        text.append(", ");
        append_counted(&mut text, self.sym, " symlink");
        text.append(", and ");
        append_counted(&mut text, self.dir, " dir");
        assert(text@ =~= summary(self@));
        text
    }

    /// Componentwise sum of two triples whose sum can be held.
    pub fn plus(self, other: DisplayStats) -> (sum: DisplayStats)
        requires
            self@.plus(other@).fits(),
        ensures
            sum@ == self@.plus(other@),
    {
        DisplayStats {
            file: self.file + other.file,
            sym: self.sym + other.sym,
            dir: self.dir + other.dir,
        }
    }

    /// Componentwise sum, or `None` when some counter would pass 64 bits.
    pub fn checked_plus(self, other: DisplayStats) -> (sum: Option<DisplayStats>)
        ensures
            sum is Some <==> self@.plus(other@).fits(),
            sum matches Some(s) ==> s@ == self@.plus(other@),
    {
        let file: u64 = match self.file.checked_add(other.file) {
            Some(v) => v,
            None => { return None; },
        };
        let sym: u64 = match self.sym.checked_add(other.sym) {
            Some(v) => v,
            None => { return None; },
        };
        let dir: u64 = match self.dir.checked_add(other.dir) {
            Some(v) => v,
            None => { return None; },
        };
        Some(DisplayStats { file, sym, dir })
    }
}

/// The shards summed.
pub open spec fn pool_sum(shards: Seq<Counts>) -> Counts
    decreases shards.len(),
{
    if shards.len() == 0 {
        Counts::zero()
    } else {
        pool_sum(shards.drop_last()).plus(shards.last())
    }
}

/// A shard that grows makes the sum grow by as much.
pub proof fn lemma_pool_sum_update(shards: Seq<Counts>, i: int, more: Counts)
    requires
        0 <= i < shards.len(),
    ensures
        pool_sum(shards.update(i, shards[i].plus(more))) == pool_sum(shards).plus(more),
    decreases shards.len(),
{
    let after = shards.update(i, shards[i].plus(more));
    if i == shards.len() - 1 {
        assert(after.drop_last() =~= shards.drop_last());
    } else {
        lemma_pool_sum_update(shards.drop_last(), i, more);
        assert(after.drop_last() =~= shards.drop_last().update(
            i,
            shards.drop_last()[i].plus(more),
        ));
    }
}

/// No shard holds more than the sum.
pub proof fn lemma_pool_sum_member(shards: Seq<Counts>, i: int)
    requires
        0 <= i < shards.len(),
    ensures
        shards[i].file <= pool_sum(shards).file,
        shards[i].sym <= pool_sum(shards).sym,
        shards[i].dir <= pool_sum(shards).dir,
    decreases shards.len(),
{
    if i < shards.len() - 1 {
        lemma_pool_sum_member(shards.drop_last(), i);
    }
}

/// A pool of empty shards sums to nothing.
pub proof fn lemma_pool_sum_zero(shards: Seq<Counts>)
    requires
        forall|i: int| 0 <= i < shards.len() ==> shards[i] == Counts::zero(),
    ensures
        pool_sum(shards) == Counts::zero(),
    decreases shards.len(),
{
    if shards.len() > 0 {
        lemma_pool_sum_zero(shards.drop_last());
    }
}

/// The first shards sum to no more than all of them.
pub proof fn lemma_pool_sum_prefix(shards: Seq<Counts>, k: int)
    requires
        0 <= k <= shards.len(),
    ensures
        pool_sum(shards.take(k)).file <= pool_sum(shards).file,
        pool_sum(shards.take(k)).sym <= pool_sum(shards).sym,
        pool_sum(shards.take(k)).dir <= pool_sum(shards).dir,
    decreases shards.len() - k,
{
    if k < shards.len() {
        lemma_pool_sum_prefix(shards, k + 1);
        assert(shards.take(k + 1).drop_last() =~= shards.take(k));
    } else {
        assert(shards.take(k) =~= shards);
    }
}

/// Sums all shards into one triple; `None` where a counter cannot hold the
/// sum. To be called once no task writes to the shards any more.
pub fn accumulate(pool: &Vec<DisplayStats>) -> (sum: Option<DisplayStats>)
    ensures
        sum is Some <==> pool_sum(views(pool@)).fits(),
        sum matches Some(s) ==> s@ == pool_sum(views(pool@)),
{
    let ghost shards = views(pool@);
    let mut sum = DisplayStats::new();
    let mut k: usize = 0;
    assert(shards.take(0) =~= Seq::<Counts>::empty());
    while k < pool.len()
        invariant
            shards == views(pool@),
            k <= pool.len(),
            sum@ == pool_sum(shards.take(k as int)),
        decreases pool.len() - k,
    {
        proof {
            assert(shards.take(k as int + 1).drop_last() =~= shards.take(k as int));
            lemma_pool_sum_prefix(shards, k as int + 1);
        }
        match sum.checked_plus(pool[k]) {
            None => {
                return None;
            },
            Some(more) => {
                sum = more;
            },
        }
        k = k + 1;
    }
    assert(shards.take(k as int) =~= shards);
    Some(sum)
}

} // verus!
