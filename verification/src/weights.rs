//! Names of weights, and when to load them anew.

use crate::elo::{find_name, is_named};
use vstd::prelude::*;
use vstd::seq_lib::*;
use vstd::set_lib::*;
use vstd::string::*;

verus! {

// --- names -------------------------------------------------------------------

/// A dot becomes an underscore.
pub open spec fn mangled_char(c: char) -> char {
    if c == '.' {
        '_'
    } else {
        c
    }
}

/// A name in which every dot has become an underscore.
pub open spec fn mangled(name: Seq<char>) -> Seq<char> {
    Seq::new(name.len(), |i: int| mangled_char(name[i]))
}

/// The name under which a compiled model keeps a weight: with an underscore for every dot.
pub fn mangle(name: &str) -> (out: String)
    ensures
        out@ == mangled(name@),
{
    let n = name.unicode_len();
    let mut out = String::new();
    let mut i: usize = 0;
    proof {
        reveal_strlit("_");
    }
    assert(out@ =~= mangled(name@).take(0));
    while i < n
        invariant
            0 <= i <= n,
            n == name@.len(),
            out@ == mangled(name@).take(i as int),
            "_"@ =~= seq!['_'],
        decreases n - i,
    {
        if name.get_char(i) == '.' {
            out.append("_");
        } else {
            out.append(name.substring_char(i, i + 1));
        }
        assert(out@ =~= mangled(name@).take(i + 1));
        i += 1;
    }
    assert(mangled(name@).take(i as int) =~= mangled(name@));
    out
}

/// The decimal digit of a number below ten.
pub open spec fn digit_char(d: nat) -> char {
    if d == 0 {
        '0'
    } else if d == 1 {
        '1'
    } else if d == 2 {
        '2'
    } else if d == 3 {
        '3'
    } else if d == 4 {
        '4'
    } else if d == 5 {
        '5'
    } else if d == 6 {
        '6'
    } else if d == 7 {
        '7'
    } else if d == 8 {
        '8'
    } else {
        '9'
    }
}

/// A number in decimal digits, the highest first.
pub open spec fn decimal_of(n: nat) -> Seq<char>
    decreases n,
{
    if n < 10 {
        seq![digit_char(n)]
    } else {
        decimal_of(n / 10).push(digit_char(n % 10))
    }
}

fn digit(d: usize) -> (s: &'static str)
    requires
        d < 10,
    ensures
        s@ == seq![digit_char(d as nat)],
{
    proof {
        reveal_strlit("0");
        reveal_strlit("1");
        reveal_strlit("2");
        reveal_strlit("3");
        reveal_strlit("4");
        reveal_strlit("5");
        reveal_strlit("6");
        reveal_strlit("7");
        reveal_strlit("8");
        reveal_strlit("9");
    }
    let s = match d {
        0 => "0",
        1 => "1",
        2 => "2",
        3 => "3",
        4 => "4",
        5 => "5",
        6 => "6",
        7 => "7",
        8 => "8",
        _ => "9",
    };
    assert(s@ =~= seq![digit_char(d as nat)]);
    s
}

/// Writes a number in decimal digits.
pub fn decimal(n: usize) -> (s: String)
    ensures
        s@ == decimal_of(n as nat),
    decreases n,
{
    if n < 10 {
        return String::from_str(digit(n));
    }
    let mut s = decimal(n / 10);
    s.append(digit(n % 10));
    assert(s@ =~= decimal_of(n as nat));
    s
}

/// Name of the weights by which the `i`-th block of the tower is known to be there.
pub open spec fn block_name(i: nat) -> Seq<char> {
    "tower."@ + decimal_of(i) + ".conv1.weight"@
}

/// Writes the name of the weights of the `i`-th block.
pub fn block_key(i: usize) -> (key: String)
    ensures
        key@ == block_name(i as nat),
{
    let mut key = String::from_str("tower.");
    let d = decimal(i);
    key.append(d.as_str());
    key.append(".conv1.weight");
    key
}

proof fn lemma_decimal_injective(m: nat, n: nat)
    requires
        decimal_of(m) == decimal_of(n),
    ensures
        m == n,
    decreases m,
{
    let a = decimal_of(m);
    let b = decimal_of(n);
    lemma_decimal_len(m);
    lemma_decimal_len(n);
    if m >= 10 {
        assert(n >= 10) by {
            lemma_decimal_len(m / 10);
        }
        assert(a.last() == digit_char(m % 10));
        assert(b.last() == digit_char(n % 10));
        assert(a.drop_last() =~= decimal_of(m / 10));
        assert(b.drop_last() =~= decimal_of(n / 10));
        lemma_decimal_injective(m / 10, n / 10);
        lemma_digit_injective(m % 10, n % 10);
    } else {
        assert(n < 10) by {
            if n >= 10 {
                lemma_decimal_len(n / 10);
            }
        }
        assert(a[0] == digit_char(m));
        assert(b[0] == digit_char(n));
        lemma_digit_injective(m, n);
    }
}

proof fn lemma_digit_injective(d: nat, e: nat)
    requires
        d < 10,
        e < 10,
        digit_char(d) == digit_char(e),
    ensures
        d == e,
{
}

proof fn lemma_decimal_len(n: nat)
    ensures
        decimal_of(n).len() >= 1,
    decreases n,
{
    if n >= 10 {
        lemma_decimal_len(n / 10);
    }
}

/// Different blocks have different names.
pub proof fn block_names_differ(i: nat, j: nat)
    requires
        block_name(i) == block_name(j),
    ensures
        i == j,
{
    let a = "tower."@;
    let z = ".conv1.weight"@;
    let x = block_name(i);
    let y = block_name(j);
    let n = x.len() as int;
    assert(x.subrange(a.len() as int, n - z.len()) =~= decimal_of(i));
    assert(y.subrange(a.len() as int, n - z.len()) =~= decimal_of(j));
    lemma_decimal_injective(i, j);
}

/// The blocks below `n` are there.
pub open spec fn has_blocks(names: Seq<String>, n: nat) -> bool {
    forall|i: nat| i < n ==> is_named(names, #[trigger] block_name(i))
}

/// `n` is the number of blocks: those below are there, and the next one is not.
pub open spec fn is_block_count(names: Seq<String>, n: nat) -> bool {
    has_blocks(names, n) && !is_named(names, block_name(n))
}

proof fn lemma_blocks_fit(names: Seq<String>, n: nat)
    requires
        has_blocks(names, n),
    ensures
        n <= names.len(),
{
    let views = Seq::new(names.len(), |k: int| names[k]@);
    let keys = Seq::new(n, |i: int| block_name(i as nat));
    assert(keys.no_duplicates()) by {
        assert forall|i: int, j: int|
            0 <= i < keys.len() && 0 <= j < keys.len() && i != j implies keys[i] != keys[j] by {
            if keys[i] == keys[j] {
                block_names_differ(i as nat, j as nat);
            }
        }
    }
    assert(keys.to_set().subset_of(views.to_set())) by {
        assert forall|s: Seq<char>| keys.to_set().contains(s) implies views.to_set().contains(
            s,
        ) by {
            let i = choose|i: int| 0 <= i < keys.len() && keys[i] == s;
            assert(is_named(names, block_name(i as nat)));
            let k = choose|k: int| #[trigger] crate::elo::stands_at(names, s, k);
            assert(views[k] == s);
        }
    }
    keys.unique_seq_to_set();
    seq_to_set_is_finite(views);
    lemma_len_subset(keys.to_set(), views.to_set());
    views.lemma_cardinality_of_set();
}

/// The number of blocks is unique.
pub proof fn block_count_is_unique(names: Seq<String>, m: nat, n: nat)
    requires
        is_block_count(names, m),
        is_block_count(names, n),
    ensures
        m == n,
{
    if m < n {
        assert(is_named(names, block_name(m)));
    }
    if n < m {
        assert(is_named(names, block_name(n)));
    }
}

/// Counts the blocks of the tower: they are numbered from zero without gaps.
pub fn count_blocks(names: &Vec<String>) -> (n: usize)
    ensures
        is_block_count(names@, n as nat),
{
    let mut n: usize = 0;
    loop
        invariant
            has_blocks(names@, n as nat),
            n <= names@.len(),
        decreases names@.len() - n,
    {
        let key = block_key(n);
        if find_name(names, &key).is_none() {
            return n;
        }
        proof {
            assert forall|i: nat| i < n + 1 implies is_named(names@, #[trigger] block_name(i)) by {
                if i == n {
                    assert(crate::elo::is_named(names@, key@));
                }
            }
            lemma_blocks_fit(names@, (n + 1) as nat);
            assert(names@.len() == names.len());
        }
        n += 1;
    }
}

// --- loading anew ------------------------------------------------------------

/// When to look at the file of weights, and what was loaded last. Times are in nanoseconds.
#[derive(Clone, Copy, PartialEq, Eq, Structural, Debug)]
pub struct Reloader {
    /// How long to wait between two looks.
    pub every: u64,
    pub last_check: u64,
    /// When the file that was loaded last was written.
    pub loaded: Option<i128>,
}

impl Reloader {
    /// Nothing to do before the first wait is over.
    pub fn new(every: u64, now: u64, loaded: Option<i128>) -> (r: Self)
        ensures
            r == (Reloader { every, last_check: now, loaded }),
    {
        Reloader { every, last_check: now, loaded }
    }

    /// Whether it is time for a look; if so, the wait starts again.
    pub fn is_due(&mut self, now: u64) -> (due: bool)
        requires
            old(self).last_check <= now,
        ensures
            due == (now - old(self).last_check >= old(self).every),
            final(self).last_check == if due {
                now
            } else {
                old(self).last_check
            },
            final(self).every == old(self).every,
            final(self).loaded == old(self).loaded,
    {
        if now - self.last_check < self.every {
            return false;
        }
        self.last_check = now;
        true
    }

    /// Whether the file that was found is to be loaded: it is there, and it is not the one
    /// that was loaded last.
    pub fn wants(&self, found: Option<i128>) -> (load: bool)
        ensures
            load == (found is Some && found != self.loaded),
    {
        match found {
            None => false,
            Some(written) => match self.loaded {
                None => true,
                Some(before) => written != before,
            },
        }
    }

    /// The file that was found has been loaded.
    pub fn note(&mut self, found: Option<i128>)
        ensures
            *final(self) == (Reloader {
                every: old(self).every,
                last_check: old(self).last_check,
                loaded: found,
            }),
    {
        self.loaded = found;
    }
}

} // verus!
