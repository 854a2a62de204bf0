use core::cmp::Ordering;
use vstd::prelude::*;

use crate::compression::{suffix_of, CompressionFormat};
use crate::naming::{decimal, file_name_of, is_digit};

verus! {

/// How `lexical_sort::natural_lexical_cmp` orders two names.
pub uninterp spec fn natural_order(a: Seq<char>, b: Seq<char>) -> Ordering;

/// How two numbers compare.
pub open spec fn order_of(m: nat, n: nat) -> Ordering {
    if m < n {
        Ordering::Less
    } else if m == n {
        Ordering::Equal
    } else {
        Ordering::Greater
    }
}

/// The length of the run of digits that ends just before position `n`.
pub open spec fn digits_before(s: Seq<char>, n: nat) -> nat
    decreases n,
{
    if n == 0 {
        0
    } else if is_digit(s[n - 1]) {
        digits_before(s, (n - 1) as nat) + 1
    } else {
        0
    }
}

/// A name that the natural comparison handles: ASCII only, and no run of
/// twenty digits or more (a run is read into a 64-bit number).
pub open spec fn comparable(s: Seq<char>) -> bool {
    &&& forall|i: int| 0 <= i < s.len() ==> s[i] <= '\u{7f}'
    &&& forall|n: nat| n <= s.len() ==> #[trigger] digits_before(s, n) < 20
}

/// A number in decimal followed by a suffix.
pub open spec fn digits_then(n: nat, suffix: Seq<char>) -> Seq<char> {
    decimal(n) + suffix
}

/// A number in decimal between a prefix and a suffix.
pub open spec fn numbered(prefix: Seq<char>, n: nat, suffix: Seq<char>) -> Seq<char> {
    prefix + digits_then(n, suffix)
}

/// The suffix does not start with a digit, so the number ends where it ends.
pub open spec fn apart(suffix: Seq<char>) -> bool {
    suffix.len() == 0 || !is_digit(suffix[0])
}

/// Two texts that are numbers followed by one suffix compare as the numbers do.
pub open spec fn agrees_numerically(a: Seq<char>, b: Seq<char>, r: Ordering) -> bool {
    forall|s: Seq<char>, m: nat, n: nat|
        #![trigger digits_then(m, s), digits_then(n, s)]
        apart(s) && a == digits_then(m, s) && b == digits_then(n, s) ==> r == order_of(m, n)
}

/// Relies on `lexical_sort::natural_lexical_cmp`. On ASCII text it walks both
/// texts with each character lower-cased; equal characters go on. Where both
/// hold a digit, the two runs of digits are read side by side: the longer
/// run is greater, and runs of one length compare by value. Decimal forms have
/// no leading zeros, so two numbers followed by one suffix that does not start
/// with a digit compare by value. Each run is read into a `u64`
/// (`n * 10 + digit`), which the bound on runs in `comparable` keeps from
/// overflowing.
#[verifier::external_body]
fn natural_compare(a: &str, b: &str) -> (r: Ordering)
    requires
        comparable(a@),
        comparable(b@),
    ensures
        r == natural_order(a@, b@),
        agrees_numerically(a@, b@, r),
{
    lexical_sort::natural_lexical_cmp(a, b)
}

/// Tells whether a name can be compared.
pub fn is_comparable(s: &str) -> (r: bool)
    ensures
        r == comparable(s@),
{
    let len = s.unicode_len();
    let mut i: usize = 0;
    let mut run: usize = 0;
    while i < len
        invariant
            len == s@.len(),
            i <= len,
            run == digits_before(s@, i as nat),
            forall|j: int| 0 <= j < i ==> s@[j] <= '\u{7f}',
            forall|n: nat| n <= i ==> #[trigger] digits_before(s@, n) < 20,
        decreases len - i,
    {
        let c = s.get_char(i);
        if c > '\u{7f}' {
            return false;
        }
        if '0' <= c && c <= '9' {
            run = run + 1;
        } else {
            run = 0;
        }
        i = i + 1;
        assert(run == digits_before(s@, i as nat));
        if run >= 20 {
            return false;
        }
        assert(forall|n: nat| n <= i ==> #[trigger] digits_before(s@, n) < 20);
    }
    true
}

/// What follows the shared prefix of a run's names.
pub open spec fn after(name: Seq<char>, prefix: Seq<char>) -> Seq<char> {
    name.skip(prefix.len() as int)
}

/// A name of the run whose names start with `prefix`, and whose rest the
/// natural comparison handles.
pub open spec fn in_run(name: Seq<char>, prefix: Seq<char>) -> bool {
    &&& prefix.len() <= name.len()
    &&& name.take(prefix.len() as int) == prefix
    &&& comparable(after(name, prefix))
}

/// Where a name goes among the names of a run kept in order: before the first
/// one that it precedes, after all the others. Names of one run share their
/// prefix, so they compare by what follows it.
pub open spec fn insertion_point(names: Seq<Seq<char>>, name: Seq<char>, prefix: Seq<char>) -> nat
    decreases names.len(),
{
    if names.len() == 0 {
        0
    } else if natural_order(after(name, prefix), after(names[0], prefix)) == Ordering::Less {
        0
    } else {
        1 + insertion_point(names.drop_first(), name, prefix)
    }
}

/// The last `limit` entries, or all of them when there are no more.
pub open spec fn newest<T>(s: Seq<T>, limit: nat) -> Seq<T> {
    if s.len() > limit {
        s.skip(s.len() - limit)
    } else {
        s
    }
}

/// The entries in front of the last `limit`.
pub open spec fn beyond_limit<T>(s: Seq<T>, limit: nat) -> Seq<T> {
    if s.len() > limit {
        s.take(s.len() - limit)
    } else {
        Seq::empty()
    }
}

/// The names with one more inserted in its place.
pub open spec fn with_report(names: Seq<Seq<char>>, name: Seq<char>, prefix: Seq<char>) -> Seq<
    Seq<char>,
> {
    names.insert(insertion_point(names, name, prefix) as int, name)
}

pub open spec fn views(files: Seq<String>) -> Seq<Seq<char>> {
    files.map_values(|f: String| f@)
}

/// Strictly increasing.
pub open spec fn increasing(s: Seq<nat>) -> bool {
    forall|i: int, j: int| 0 <= i < j < s.len() ==> s[i] < s[j]
}

/// How many leading entries are below `n`.
pub open spec fn count_below(s: Seq<nat>, n: nat) -> nat
    decreases s.len(),
{
    if s.len() == 0 {
        0
    } else if s[0] < n {
        1 + count_below(s.drop_first(), n)
    } else {
        0
    }
}

/// The sequence numbers kept once `n` is reported, when `s` was kept before.
pub open spec fn kept(s: Seq<nat>, n: nat, limit: nat) -> Seq<nat> {
    newest(s.insert(count_below(s, n) as int, n), limit)
}

/// The sequence numbers kept after the reports arrive in the given order.
pub open spec fn replay(reports: Seq<nat>, limit: nat) -> Seq<nat>
    decreases reports.len(),
{
    if reports.len() == 0 {
        Seq::empty()
    } else {
        kept(replay(reports.drop_last(), limit), reports.last(), limit)
    }
}

/// The names of the files numbered `seqs`.
pub open spec fn numbered_names(prefix: Seq<char>, seqs: Seq<nat>, suffix: Seq<char>) -> Seq<Seq<char>> {
    seqs.map_values(|n: nat| numbered(prefix, n, suffix))
}

proof fn lemma_count_below_at(s: Seq<nat>, n: nat, pos: int)
    requires
        increasing(s),
        0 <= pos <= s.len(),
        forall|j: int| 0 <= j < pos ==> s[j] < n,
        pos < s.len() ==> n < s[pos],
    ensures
        count_below(s, n) == pos,
    decreases s.len(),
{
    if s.len() > 0 && pos > 0 {
        lemma_count_below_at(s.drop_first(), n, pos - 1);
    }
}

proof fn lemma_count_below_bounds(s: Seq<nat>, n: nat)
    requires
        increasing(s),
    ensures
        count_below(s, n) <= s.len(),
        forall|j: int| 0 <= j < count_below(s, n) ==> s[j] < n,
        count_below(s, n) < s.len() ==> n <= s[count_below(s, n) as int],
    decreases s.len(),
{
    if s.len() > 0 && s[0] < n {
        let t = s.drop_first();
        lemma_count_below_bounds(t, n);
        assert forall|j: int| 0 <= j < count_below(s, n) implies s[j] < n by {
            if j > 0 {
                assert(s[j] == t[j - 1]);
            }
        }
    }
}

/// One report: the set kept stays increasing, grows by one until it reaches
/// the limit, and then loses its smallest entry.
proof fn lemma_kept(s: Seq<nat>, n: nat, limit: nat)
    requires
        increasing(s),
        !s.contains(n),
        limit > 0,
        s.len() <= limit,
    ensures
        increasing(kept(s, n, limit)),
        kept(s, n, limit).len() == if s.len() < limit { s.len() + 1 } else { limit },
        forall|x: nat| #[trigger] kept(s, n, limit).contains(x) ==> s.contains(x) || x == n,
        s.len() < limit ==> forall|x: nat|
            (s.contains(x) || x == n) ==> #[trigger] kept(s, n, limit).contains(x),
        s.len() == limit ==> forall|x: nat|
            (s.contains(x) || x == n) && !#[trigger] kept(s, n, limit).contains(x) ==> forall|i: int|
                0 <= i < limit ==> x < kept(s, n, limit)[i],
{
    lemma_count_below_bounds(s, n);
    let c = count_below(s, n) as int;
    let u = s.insert(c, n);
    assert(c < s.len() ==> n < s[c]) by {
        if c < s.len() {
            assert(s.contains(s[c]));
        }
    }
    assert(u.len() == s.len() + 1);
    assert forall|i: int| 0 <= i < u.len() implies #[trigger] u[i] == if i < c { s[i] } else if i
        == c { n } else { s[i - 1] } by {}
    assert(increasing(u)) by {
        assert forall|i: int, j: int| 0 <= i < j < u.len() implies u[i] < u[j] by {
            assert(u[i] == if i < c { s[i] } else if i == c { n } else { s[i - 1] });
            assert(u[j] == if j < c { s[j] } else if j == c { n } else { s[j - 1] });
            if i < c && j > c {
                assert(s[i] < n);
                assert(n < s[c]);
            }
        }
    }
    assert forall|x: nat| u.contains(x) <==> (s.contains(x) || x == n) by {
        if u.contains(x) {
            let i = choose|i: int| 0 <= i < u.len() && u[i] == x;
            assert(u[i] == if i < c { s[i] } else if i == c { n } else { s[i - 1] });
        }
        if s.contains(x) {
            let i = choose|i: int| 0 <= i < s.len() && s[i] == x;
            if i < c {
                assert(u[i] == x);
            } else {
                assert(u[i + 1] == x);
            }
        }
        if x == n {
            assert(u[c] == x);
        }
    }
    let t = kept(s, n, limit);
    if s.len() < limit {
        assert(t == u);
    } else {
        assert(t == u.skip(1));
        assert forall|x: nat| t.contains(x) implies u.contains(x) by {
            let i = choose|i: int| 0 <= i < t.len() && t[i] == x;
            assert(u[i + 1] == x);
        }
        assert forall|x: nat| (s.contains(x) || x == n) && !t.contains(x) implies forall|i: int|
            0 <= i < limit ==> x < t[i] by {
            let k = choose|k: int| 0 <= k < u.len() && u[k] == x;
            if k > 0 {
                assert(t[k - 1] == x);
            }
            assert forall|i: int| 0 <= i < limit implies x < t[i] by {
                assert(t[i] == u[i + 1]);
            }
        }
    }
}

/// Whatever order the reports arrive in, what is kept is, in increasing
/// order, the `limit` highest sequence numbers reported, or all of them while
/// fewer have been reported: nothing beyond the limit, nothing that was not
/// reported, and every number dropped is below every number kept.
pub proof fn lemma_retention_keeps_newest(reports: Seq<nat>, limit: nat)
    requires
        limit > 0,
        reports.no_duplicates(),
    ensures
        increasing(replay(reports, limit)),
        replay(reports, limit).len() == if reports.len() < limit { reports.len() } else { limit },
        forall|x: nat| #[trigger] replay(reports, limit).contains(x) ==> reports.contains(x),
        forall|r: nat|
            reports.contains(r) && !#[trigger] replay(reports, limit).contains(r) ==> forall|i: int|
                0 <= i < replay(reports, limit).len() ==> r < replay(reports, limit)[i],
        reports.len() <= limit ==> forall|r: nat|
            reports.contains(r) ==> #[trigger] replay(reports, limit).contains(r),
    decreases reports.len(),
{
    if reports.len() > 0 {
        let before = reports.drop_last();
        let n = reports.last();
        assert(before.no_duplicates()) by {
            assert forall|i: int, j: int| 0 <= i < j < before.len() implies before[i] != before[j] by {
                assert(before[i] == reports[i] && before[j] == reports[j]);
            }
        }
        lemma_retention_keeps_newest(before, limit);
        let s = replay(before, limit);
        assert(reports =~= before.push(n));
        assert forall|r: nat| before.contains(r) implies reports.contains(r) by {
            let i = choose|i: int| 0 <= i < before.len() && before[i] == r;
            assert(reports[i] == r);
        }
        assert(!before.contains(n)) by {
            if before.contains(n) {
                let i = choose|i: int| 0 <= i < before.len() && before[i] == n;
                assert(reports[i] == reports[reports.len() - 1]);
            }
        }
        assert(!s.contains(n));
        lemma_kept(s, n, limit);
        let t = replay(reports, limit);
        assert(t == kept(s, n, limit));
        assert forall|r: nat| #[trigger] reports.contains(r) implies before.contains(r) || r == n by {
            let i = choose|i: int| 0 <= i < reports.len() && reports[i] == r;
            if i < reports.len() - 1 {
                assert(before[i] == r);
            }
        }
        assert(reports.contains(n)) by {
            assert(reports[reports.len() - 1] == n);
        }
        if s.len() < limit {
            assert forall|r: nat| reports.contains(r) implies #[trigger] t.contains(r) by {
                if r != n {
                    assert(before.contains(r));
                }
            }
        } else {
            assert forall|r: nat| reports.contains(r) && !#[trigger] t.contains(r) implies forall|i: int|
                0 <= i < t.len() ==> r < t[i] by {
                if r != n {
                    assert(before.contains(r));
                    if !s.contains(r) {
                        assert forall|i: int| 0 <= i < t.len() implies r < t[i] by {
                            assert(t.contains(t[i]));
                            if !s.contains(t[i]) {
                                assert(t[i] == n);
                                lemma_count_below_bounds(s, n);
                                let c = count_below(s, n) as int;
                                let u = s.insert(c, n);
                                assert(t == u.skip(1));
                                if c == 0 {
                                    assert(u[i + 1] == s[i]);
                                    assert(s.contains(s[i]));
                                }
                                assert(s[0] < n);
                                assert(s.contains(s[0]));
                            }
                        }
                    }
                }
            }
        }
    }
}

/// Keeps the names of the files written so far, in natural order, and no
/// more of them than the retention limit. All names of a run start with
/// `{base}.`, so they are ordered by what follows.
pub struct Receiver {
    completed_files: Vec<String>,
    max_files: usize,
    prefix: String,
    prefix_len: usize,
}

impl Receiver {
    /// The names kept, oldest first.
    pub closed spec fn names(&self) -> Seq<Seq<char>> {
        views(self.completed_files@)
    }

    pub closed spec fn limit(&self) -> nat {
        self.max_files as nat
    }

    /// What every name of the run starts with: `{base}.`.
    pub closed spec fn prefix(&self) -> Seq<char> {
        self.prefix@
    }

    pub closed spec fn wf(&self) -> bool {
        &&& self.max_files > 0
        &&& self.prefix_len == self.prefix@.len()
        &&& self.completed_files@.len() <= self.max_files
        &&& forall|i: int|
            0 <= i < self.completed_files@.len() ==> in_run(
                #[trigger] self.completed_files@[i]@,
                self.prefix@,
            )
    }

    /// A receiver for the files named `{base}.{sequence}{suffix}`.
    pub fn new(base: &str, max_files: usize) -> (r: Receiver)
        requires
            max_files > 0,
        ensures
            r.wf(),
            r.names() == Seq::<Seq<char>>::empty(),
            r.limit() == max_files,
            r.prefix() == base@.push('.'),
    {
        let mut prefix = String::from_str(base);
        prefix.append(".");
        proof {
            reveal_strlit(".");
        }
        assert(prefix@ =~= base@.push('.'));
        let prefix_len = prefix.as_str().unicode_len();
        let r = Receiver { completed_files: Vec::new(), max_files, prefix, prefix_len };
        assert(r.names() =~= Seq::<Seq<char>>::empty());
        r
    }

    /// Tells whether a name belongs to this run and can be ordered.
    pub fn accepts(&self, name: &str) -> (r: bool)
        requires
            self.wf(),
        ensures
            r == in_run(name@, self.prefix()),
    {
        let len = name.unicode_len();
        let plen = self.prefix_len;
        if len < plen {
            return false;
        }
        let mut i: usize = 0;
        while i < plen
            invariant
                plen == self.prefix@.len(),
                plen <= len,
                len == name@.len(),
                i <= plen,
                forall|j: int| 0 <= j < i ==> name@[j] == self.prefix@[j],
            decreases plen - i,
        {
            if name.get_char(i) != self.prefix.as_str().get_char(i) {
                assert(name@.take(plen as int)[i as int] != self.prefix@[i as int]);
                return false;
            }
            i = i + 1;
        }
        assert(name@.take(plen as int) =~= self.prefix@);
        let rest = name.substring_char(plen, len);
        assert(rest@ =~= after(name@, self.prefix@));
        is_comparable(rest)
    }

    /// The names kept, oldest first.
    pub fn retained(&self) -> (r: Vec<String>)
        requires
            self.wf(),
        ensures
            views(r@) == self.names(),
    {
        let mut out: Vec<String> = Vec::new();
        let mut i: usize = 0;
        while i < self.completed_files.len()
            invariant
                i <= self.completed_files@.len(),
                out@.len() == i,
                forall|j: int| 0 <= j < i ==> (#[trigger] out@[j])@ == self.completed_files@[j]@,
            decreases self.completed_files@.len() - i,
        {
            out.push(self.completed_files[i].clone());
            i = i + 1;
        }
        assert(views(out@) =~= self.names());
        out
    }

    pub fn max_files(&self) -> (r: usize)
        ensures
            r == self.limit(),
    {
        self.max_files
    }

    /// Takes the report that a file is complete. The name joins the others
    /// in natural order, then the oldest names beyond the limit leave and
    /// are handed back, oldest first, for their files to be deleted. A name
    /// that arrives after the limit is full of newer ones leaves at once.
    pub fn receive(&mut self, name: String) -> (evicted: Vec<String>)
        requires
            old(self).wf(),
            in_run(name@, old(self).prefix()),
        ensures
            final(self).wf(),
            final(self).limit() == old(self).limit(),
            final(self).prefix() == old(self).prefix(),
            final(self).names().len() <= final(self).limit(),
            final(self).names() == newest(
                with_report(old(self).names(), name@, old(self).prefix()),
                old(self).limit(),
            ),
            views(evicted@) == beyond_limit(
                with_report(old(self).names(), name@, old(self).prefix()),
                old(self).limit(),
            ),
            forall|s: Seq<char>, seqs: Seq<nat>, n: nat|
                #![trigger numbered_names(old(self).prefix(), seqs, s), numbered(old(self).prefix(), n, s)]
                apart(s) && increasing(seqs) && !seqs.contains(n) && old(self).names()
                    == numbered_names(old(self).prefix(), seqs, s) && name@ == numbered(
                    old(self).prefix(),
                    n,
                    s,
                ) ==> final(self).names() == numbered_names(
                    old(self).prefix(),
                    kept(seqs, n, old(self).limit()),
                    s,
                ),
    {
        let ghost names = self.names();
        let ghost x = name@;
        let ghost prefix = self.prefix@;
        let plen = self.prefix_len;
        let name_len = name.as_str().unicode_len();
        let x_rest = name.as_str().substring_char(plen, name_len);
        assert(x_rest@ =~= after(x, prefix));
        let mut pos: usize = 0;
        assert(names.skip(0) =~= names);
        while pos < self.completed_files.len()
            invariant
                self.wf(),
                names == self.names(),
                prefix == self.prefix@,
                plen == prefix.len(),
                x_rest@ == after(x, prefix),
                comparable(after(x, prefix)),
                pos <= names.len(),
                insertion_point(names, x, prefix) == pos + insertion_point(
                    names.skip(pos as int),
                    x,
                    prefix,
                ),
                forall|j: int|
                    0 <= j < pos ==> {
                        &&& natural_order(after(x, prefix), after(#[trigger] names[j], prefix))
                            != Ordering::Less
                        &&& agrees_numerically(
                            after(x, prefix),
                            after(names[j], prefix),
                            natural_order(after(x, prefix), after(names[j], prefix)),
                        )
                    },
            ensures
                pos <= names.len(),
                pos == insertion_point(names, x, prefix),
                forall|j: int|
                    0 <= j < pos ==> {
                        &&& natural_order(after(x, prefix), after(#[trigger] names[j], prefix))
                            != Ordering::Less
                        &&& agrees_numerically(
                            after(x, prefix),
                            after(names[j], prefix),
                            natural_order(after(x, prefix), after(names[j], prefix)),
                        )
                    },
                pos < names.len() ==> {
                    &&& natural_order(after(x, prefix), after(names[pos as int], prefix))
                        == Ordering::Less
                    &&& agrees_numerically(
                        after(x, prefix),
                        after(names[pos as int], prefix),
                        natural_order(after(x, prefix), after(names[pos as int], prefix)),
                    )
                },
            decreases names.len() - pos,
        {
            let other = self.completed_files[pos].as_str();
            assert(in_run(other@, prefix));
            let other_rest = other.substring_char(plen, other.unicode_len());
            assert(other_rest@ =~= after(names[pos as int], prefix));
            let o = natural_compare(x_rest, other_rest);
            let ghost rest = names.skip(pos as int);
            assert(rest[0] == names[pos as int]);
            match o {
                Ordering::Less => {
                    break;
                },
                _ => {},
            }
            assert(rest.drop_first() =~= names.skip(pos + 1));
            pos = pos + 1;
        }
        proof {
            if pos == names.len() {
                assert(names.skip(pos as int) =~= Seq::<Seq<char>>::empty());
            }
        }
        let ghost limit = self.max_files as nat;
        let ghost inserted = with_report(names, x, prefix);
        self.completed_files.insert(pos, name);
        assert(self.names() =~= inserted);
        let mut evicted: Vec<String> = Vec::new();
        while self.completed_files.len() > self.max_files
            invariant
                self.max_files == limit,
                limit > 0,
                self.prefix_len == self.prefix@.len(),
                prefix == self.prefix@,
                inserted.len() <= limit + 1,
                evicted@.len() <= 1,
                self.names() == inserted.skip(evicted@.len() as int),
                views(evicted@) == inserted.take(evicted@.len() as int),
                evicted@.len() > 0 ==> inserted.len() > limit,
                forall|i: int|
                    0 <= i < self.completed_files@.len() ==> in_run(
                        #[trigger] self.completed_files@[i]@,
                        self.prefix@,
                    ),
            decreases self.completed_files@.len(),
        {
            assert(self.names().len() == self.completed_files@.len());
            assert(evicted@.len() == 0);
            assert(inserted.skip(0) =~= inserted);
            let ghost files_before = self.completed_files@;
            let oldest = self.completed_files.remove(0);
            assert(oldest@ == inserted[0]);
            evicted.push(oldest);
            assert forall|i: int| 0 <= i < self.completed_files@.len() implies #[trigger] self.names()[i]
                == inserted.skip(1)[i] by {
                assert(self.completed_files@[i] == files_before[i + 1]);
            }
            assert(self.names() =~= inserted.skip(evicted@.len() as int));
            assert(views(evicted@) =~= inserted.take(evicted@.len() as int));
        }
        assert(self.names() =~= newest(inserted, limit));
        assert(views(evicted@) =~= beyond_limit(inserted, limit));
        assert forall|s: Seq<char>, seqs: Seq<nat>, n: nat|
            apart(s) && increasing(seqs) && !seqs.contains(n) && names == numbered_names(
                prefix,
                seqs,
                s,
            ) && x == #[trigger] numbered(prefix, n, s) implies #[trigger] numbered_names(
            prefix,
            seqs,
            s,
        ) == names && self.names() == numbered_names(prefix, kept(seqs, n, limit), s) by {
            assert(after(x, prefix) =~= digits_then(n, s));
            assert forall|j: int| 0 <= j < pos implies seqs[j] < n by {
                assert(names[j] == numbered(prefix, seqs[j], s));
                assert(after(names[j], prefix) =~= digits_then(seqs[j], s));
                assert(natural_order(after(x, prefix), after(names[j], prefix)) == order_of(
                    n,
                    seqs[j],
                ));
                assert(seqs.contains(seqs[j]));
            }
            if pos < names.len() {
                let j = pos as int;
                assert(names[j] == numbered(prefix, seqs[j], s));
                assert(after(names[j], prefix) =~= digits_then(seqs[j], s));
                assert(natural_order(after(x, prefix), after(names[j], prefix)) == order_of(
                    n,
                    seqs[j],
                ));
            }
            lemma_count_below_at(seqs, n, pos as int);
            let u = seqs.insert(pos as int, n);
            assert(inserted =~= numbered_names(prefix, u, s));
            assert(newest(numbered_names(prefix, u, s), limit) =~= numbered_names(
                prefix,
                newest(u, limit),
                s,
            ));
        }
        evicted
    }
}

/// The files of one run differ only in their sequence number, which follows
/// `{base}.` and comes before the format's suffix.
pub proof fn lemma_file_names_numbered(base: Seq<char>, sequence: nat, format: CompressionFormat)
    ensures
        apart(suffix_of(format)),
        file_name_of(base, sequence, format) == numbered(base.push('.'), sequence, suffix_of(format)),
{
    assert(file_name_of(base, sequence, format) =~= numbered(
        base.push('.'),
        sequence,
        suffix_of(format),
    ));
}

/// With no limit below the number of reports, every file reported is kept.
pub proof fn lemma_no_limit_keeps_all(reports: Seq<nat>, limit: nat)
    requires
        reports.no_duplicates(),
        reports.len() <= limit,
    ensures
        forall|r: nat| reports.contains(r) ==> #[trigger] replay(reports, limit).contains(r),
        replay(reports, limit).len() == reports.len(),
{
    if limit > 0 {
        lemma_retention_keeps_newest(reports, limit);
    }
}

/// Each report takes what is kept from the replay of the reports before it
/// to the replay that includes it: the numbers kept are increasing and the
/// new number is not among them, as `receive` asks of numbered names.
pub proof fn lemma_report_extends_replay(reports: Seq<nat>, n: nat, limit: nat)
    requires
        limit > 0,
        reports.push(n).no_duplicates(),
    ensures
        increasing(replay(reports, limit)),
        !replay(reports, limit).contains(n),
        replay(reports.push(n), limit) == kept(replay(reports, limit), n, limit),
{
    let all = reports.push(n);
    assert(all.drop_last() =~= reports);
    assert(reports.no_duplicates()) by {
        assert forall|i: int, j: int| 0 <= i < j < reports.len() implies reports[i] != reports[j] by {
            assert(all[i] == reports[i] && all[j] == reports[j]);
        }
    }
    lemma_retention_keeps_newest(reports, limit);
    if replay(reports, limit).contains(n) {
        let i = choose|i: int| 0 <= i < reports.len() && reports[i] == n;
        assert(all[i] == all[reports.len() as int]);
    }
}

/// Ten to the power `k`.
pub open spec fn pow10(k: nat) -> nat
    decreases k,
{
    if k == 0 {
        1
    } else {
        10 * pow10((k - 1) as nat)
    }
}

proof fn lemma_decimal_digits(n: nat, k: nat)
    requires
        n < pow10(k),
        k >= 1,
    ensures
        decimal(n).len() <= k,
        decimal(n).len() >= 1,
        forall|i: int| 0 <= i < decimal(n).len() ==> is_digit(#[trigger] decimal(n)[i]),
    decreases n,
{
    if n >= 10 {
        if k == 1 {
            assert(pow10(1) == 10) by {
                reveal_with_fuel(pow10, 2);
            }
        }
        assert(n / 10 < pow10((k - 1) as nat));
        lemma_decimal_digits(n / 10, (k - 1) as nat);
        let d = decimal(n / 10);
        assert forall|i: int| 0 <= i < decimal(n).len() implies is_digit(#[trigger] decimal(n)[i]) by {
            if i < d.len() {
                assert(decimal(n)[i] == d[i]);
            }
        }
    }
}

proof fn lemma_digits_before_numbered(n: nat, s: Seq<char>, k: nat)
    requires
        apart(s),
        forall|i: int| 0 <= i < decimal(n).len() ==> is_digit(#[trigger] decimal(n)[i]),
        k <= decimal(n).len() + s.len(),
    ensures
        k <= decimal(n).len() ==> digits_before(digits_then(n, s), k) == k,
        k > decimal(n).len() ==> digits_before(digits_then(n, s), k) == digits_before(
            s,
            (k - decimal(n).len()) as nat,
        ),
    decreases k,
{
    let t = digits_then(n, s);
    let l = decimal(n).len();
    if k > 0 {
        lemma_digits_before_numbered(n, s, (k - 1) as nat);
        if k <= l {
            assert(t[k - 1] == decimal(n)[k - 1]);
        } else {
            assert(t[k - 1] == s[k - 1 - l]);
        }
    }
}

/// Every file name of a run is accepted by its receiver: the sequence number
/// has at most nineteen digits (all a `u64` can read) and the suffix is
/// comparable and does not start with a digit.
pub proof fn lemma_numbered_in_run(prefix: Seq<char>, n: nat, s: Seq<char>)
    requires
        n < pow10(19),
        apart(s),
        comparable(s),
    ensures
        in_run(numbered(prefix, n, s), prefix),
{
    lemma_decimal_digits(n, 19);
    let name = numbered(prefix, n, s);
    let t = digits_then(n, s);
    assert(name.take(prefix.len() as int) =~= prefix);
    assert(after(name, prefix) =~= t);
    let l = decimal(n).len();
    assert forall|i: int| 0 <= i < t.len() implies t[i] <= '\u{7f}' by {
        if i < l {
            assert(t[i] == decimal(n)[i]);
            assert(is_digit(decimal(n)[i]));
        } else {
            assert(t[i] == s[i - l]);
        }
    }
    assert forall|k: nat| k <= t.len() implies #[trigger] digits_before(t, k) < 20 by {
        lemma_digits_before_numbered(n, s, k);
        if k > l {
            assert(digits_before(s, (k - l) as nat) < 20);
        }
    }
}

/// The suffixes of the formats can follow a number in a name of the run.
pub proof fn lemma_suffixes_comparable(format: CompressionFormat)
    ensures
        apart(suffix_of(format)),
        comparable(suffix_of(format)),
{
    let s = suffix_of(format);
    assert forall|k: nat| k <= s.len() implies #[trigger] digits_before(s, k) < 20 by {
        reveal_with_fuel(digits_before, 4);
    }
}

} // verus!
