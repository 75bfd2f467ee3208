//! Keeping up with edits made by others: when to look, what moved, and what this
//! process is writing itself.
use crate::paths::{
    are_same_parts, below, has_extension, part_models, parts, parts_below, parts_of, Part, PathPart,
};
use crate::scan::{is_note, print_of, FileFingerprint, ScannedNote};
use crate::text::{copy, has_text, same, texts};
use vstd::multiset::Multiset;
use vstd::prelude::*;

verus! {

// ---------------------------------------------------------------------------
// The schedule
// ---------------------------------------------------------------------------

/// The shortest time between two sweeps, in nanoseconds.
pub const RECONCILE_MIN_INTERVAL: u64 = 500_000_000;

/// The longest time between two sweeps, in nanoseconds.
pub const RECONCILE_MAX_INTERVAL: u64 = 30_000_000_000;

/// Sweeping takes at most this part of the time.
pub const RECONCILE_DUTY_DIVISOR: u64 = 20;

/// When the last sweep ended and what it cost, in nanoseconds.
#[derive(Debug, Clone, Copy, PartialEq, Eq, Structural)]
pub struct ReconcileState {
    pub last_finished: Option<u64>,
    pub last_cost: u64,
}

/// How long to wait after a sweep of this cost: the multiple of it that keeps to
/// the share of time, within the two limits.
pub open spec fn interval_after(cost: int) -> int {
    let scaled = cost * RECONCILE_DUTY_DIVISOR;
    if scaled < RECONCILE_MIN_INTERVAL {
        RECONCILE_MIN_INTERVAL as int
    } else if scaled > RECONCILE_MAX_INTERVAL {
        RECONCILE_MAX_INTERVAL as int
    } else {
        scaled
    }
}

/// Whether a sweep is due at a time.
pub open spec fn due(state: ReconcileState, now: int) -> bool {
    match state.last_finished {
        None => true,
        Some(finished) => now - finished >= interval_after(state.last_cost as int),
    }
}

impl ReconcileState {
    /// Nothing was swept yet.
    pub fn new() -> (r: ReconcileState)
        ensures
            r == (ReconcileState { last_finished: None, last_cost: 0 }),
    {
        ReconcileState { last_finished: None, last_cost: 0 }
    }

    /// How long to wait after the last sweep.
    pub fn interval(&self) -> (r: u64)
        ensures
            r == interval_after(self.last_cost as int),
            RECONCILE_MIN_INTERVAL <= r <= RECONCILE_MAX_INTERVAL,
    {
        if self.last_cost > RECONCILE_MAX_INTERVAL / RECONCILE_DUTY_DIVISOR {
            return RECONCILE_MAX_INTERVAL;
        }
        let scaled: u64 = self.last_cost * RECONCILE_DUTY_DIVISOR;
        if scaled < RECONCILE_MIN_INTERVAL {
            RECONCILE_MIN_INTERVAL
        } else {
            scaled
        }
    }

    /// Whether a sweep is due now.
    pub fn is_due(&self, now: u64) -> (r: bool)
        ensures
            r == due(*self, now as int),
    {
        match self.last_finished {
            None => true,
            Some(finished) => now >= finished && now - finished >= self.interval(),
        }
    }

    /// A sweep of this cost has ended now.
    pub fn record(&mut self, cost: u64, now: u64)
        ensures
            *final(self) == (ReconcileState { last_finished: Some(now), last_cost: cost }),
    {
        self.last_cost = cost;
        self.last_finished = Some(now);
    }
}

/// Whether the scheduled gate sweeps: only where it is switched on and due. An
/// explicit request does not ask.
pub fn gate_sweeps(enabled: bool, state: &ReconcileState, now: u64) -> (r: bool)
    ensures
        r == (enabled && due(*state, now as int)),
{
    enabled && state.is_due(now)
}

/// Whatever a sweep costs, the next one waits at least half a second and at most
/// thirty seconds.
pub proof fn lemma_interval_bounds(cost: int)
    ensures
        RECONCILE_MIN_INTERVAL <= interval_after(cost) <= RECONCILE_MAX_INTERVAL,
{
}

/// Sweeping takes at most its share of the time, up to the longest wait.
pub proof fn lemma_sweep_keeps_to_its_share(cost: int)
    requires
        0 <= cost,
        cost * RECONCILE_DUTY_DIVISOR <= RECONCILE_MAX_INTERVAL,
    ensures
        cost * RECONCILE_DUTY_DIVISOR <= interval_after(cost),
{
}

/// Right after a sweep none is due; so a burst of calls costs one sweep.
pub proof fn lemma_burst_costs_one_sweep(cost: u64, finished: u64, now: int)
    requires
        finished <= now < finished + RECONCILE_MIN_INTERVAL,
    ensures
        !due(ReconcileState { last_finished: Some(finished), last_cost: cost }, now),
{
    lemma_interval_bounds(cost as int);
}

// ---------------------------------------------------------------------------
// Claims
// ---------------------------------------------------------------------------

/// The paths that this process is writing, each as often as it is claimed.
#[derive(Debug)]
pub struct WriteClaims {
    held: Vec<String>,
}

impl View for WriteClaims {
    type V = Multiset<Seq<char>>;

    closed spec fn view(&self) -> Multiset<Seq<char>> {
        texts(self.held@).to_multiset()
    }
}

impl WriteClaims {
    /// Nothing is claimed.
    pub fn new() -> (r: WriteClaims)
        ensures
            r@ == Multiset::<Seq<char>>::empty(),
    {
        broadcast use vstd::seq_lib::group_to_multiset_ensures;

        let r = WriteClaims { held: Vec::new() };
        assert(texts(r.held@) =~= Seq::<Seq<char>>::empty());
        assert(r@ =~= Multiset::<Seq<char>>::empty());
        r
    }

    /// Claims the paths of a plan, once more where they are claimed already.
    pub fn claim(&mut self, paths: &Vec<String>)
        ensures
            final(self)@ == old(self)@.add(texts(paths@).to_multiset()),
    {
        broadcast use vstd::seq_lib::group_to_multiset_ensures;

        let ghost start = self@;
        let ghost all = texts(paths@);
        let mut i: usize = 0;
        assert(all.take(0) =~= Seq::<Seq<char>>::empty());
        assert(self@ =~= start.add(all.take(0).to_multiset()));
        while i < paths.len()
            invariant
                i <= paths.len(),
                all == texts(paths@),
                self@ == start.add(all.take(i as int).to_multiset()),
            decreases paths.len() - i,
        {
            let ghost before = texts(self.held@);
            self.held.push(paths[i].clone());
            assert(texts(self.held@) =~= before.push(all[i as int]));
            assert(all.take(i + 1) =~= all.take(i as int).push(all[i as int]));
            proof {
                before.to_multiset_ensures();
                all.take(i as int).to_multiset_ensures();
            }
            assert(self@ =~= start.add(all.take(i + 1).to_multiset()));
            i = i + 1;
        }
        assert(all.take(i as int) =~= all);
    }

    /// Gives up one claim of a path, if there is one.
    fn release_one(&mut self, path: &str)
        ensures
            final(self)@ == old(self)@.remove(path@),
    {
        broadcast use vstd::seq_lib::group_to_multiset_ensures;

        let ghost before = texts(self.held@);
        let mut i: usize = 0;
        while i < self.held.len()
            invariant
                i <= self.held.len(),
                before == texts(self.held@),
                self@ == before.to_multiset(),
                forall|k: int| 0 <= k < i ==> #[trigger] before[k] != path@,
                *self == *old(self),
            decreases self.held.len() - i,
        {
            assert(before[i as int] == self.held@[i as int]@);
            if same(self.held[i].as_str(), path) {
                proof {
                    before.to_multiset_ensures();
                }
                self.held.remove(i);
                assert(texts(self.held@) =~= before.remove(i as int));
                return;
            }
            i = i + 1;
        }
        assert(!before.contains(path@));
        assert(before.to_multiset().count(path@) == 0);
        assert(before.to_multiset().remove(path@) =~= before.to_multiset());
    }

    /// Gives up the claims of a plan.
    pub fn release(&mut self, paths: &Vec<String>)
        ensures
            final(self)@ == old(self)@.sub(texts(paths@).to_multiset()),
    {
        broadcast use vstd::seq_lib::group_to_multiset_ensures;

        let ghost start = self@;
        let ghost all = texts(paths@);
        let mut i: usize = 0;
        assert(all.take(0) =~= Seq::<Seq<char>>::empty());
        assert(self@ =~= start.sub(all.take(0).to_multiset()));
        while i < paths.len()
            invariant
                i <= paths.len(),
                all == texts(paths@),
                self@ == start.sub(all.take(i as int).to_multiset()),
            decreases paths.len() - i,
        {
            assert(all[i as int] == paths@[i as int]@);
            self.release_one(paths[i].as_str());
            assert(all.take(i + 1) =~= all.take(i as int).push(all[i as int]));
            proof {
                all.take(i as int).to_multiset_ensures();
            }
            assert(self@ =~= start.sub(all.take(i + 1).to_multiset()));
            i = i + 1;
        }
        assert(all.take(i as int) =~= all);
    }

    /// Whether a path is claimed.
    pub fn holds(&self, path: &str) -> (r: bool)
        ensures
            r == (self@.count(path@) > 0),
    {
        broadcast use vstd::seq_lib::group_to_multiset_ensures;

        has_text(&self.held, path)
    }
}

/// Giving up what was claimed leaves the other claims as they were: of two plans
/// that share a path, the one that ends first does not give up the other's claim.
pub proof fn lemma_release_undoes_claim(
    held: Multiset<Seq<char>>,
    paths: Multiset<Seq<char>>,
)
    ensures
        held.add(paths).sub(paths) == held,
{
    assert(held.add(paths).sub(paths) =~= held);
}

// ---------------------------------------------------------------------------
// The note cache
// ---------------------------------------------------------------------------

/// What the note cache knows of a note: the revision it was parsed from, where that
/// is known.
#[derive(Debug)]
pub struct CacheRecord {
    pub path: String,
    pub observed: Option<FileFingerprint>,
}

/// A path that moved, and whether it is there now.
#[derive(Debug)]
pub struct PathChange {
    pub path: String,
    pub present: bool,
}

/// The model of paths that moved.
pub open spec fn changes(v: Seq<PathChange>) -> Seq<(Seq<char>, bool)> {
    v.map_values(|c: PathChange| (c.path@, c.present))
}

/// The revision of the note with these parts that a scan found, the last one where it was
/// found twice. A path is the same in all its spellings.
pub open spec fn print_at(notes: Seq<ScannedNote>, key: Seq<Part>) -> Option<FileFingerprint>
    decreases notes.len(),
{
    if notes.len() == 0 {
        None
    } else if parts(notes.last().path@) == key && has_extension(notes.last().path@, "md"@) {
        Some(print_of(notes.last()))
    } else {
        print_at(notes.drop_last(), key)
    }
}

/// The revision of a note that a scan found.
pub open spec fn on_disk(notes: Seq<ScannedNote>, path: Seq<char>) -> Option<FileFingerprint> {
    print_at(notes, parts(path))
}

/// Whether the cache holds a note with these parts.
pub open spec fn holds_key(cache: Seq<CacheRecord>, key: Seq<Part>) -> bool {
    exists|i: int| 0 <= i < cache.len() && parts((#[trigger] cache[i]).path@) == key
}

/// Whether the cache holds a note.
pub open spec fn is_cached(cache: Seq<CacheRecord>, path: Seq<char>) -> bool {
    holds_key(cache, parts(path))
}

/// What became of the notes in the cache: still there with another revision, or
/// gone. One with the revision it was parsed from did not move.
pub open spec fn cached_changes(cache: Seq<CacheRecord>, notes: Seq<ScannedNote>) -> Seq<
    (Seq<char>, bool),
>
    decreases cache.len(),
{
    if cache.len() == 0 {
        Seq::empty()
    } else {
        let before = cached_changes(cache.drop_last(), notes);
        let record = cache.last();
        match on_disk(notes, record.path@) {
            Some(print) => if record.observed == Some(print) {
                before
            } else {
                before.push((record.path@, true))
            },
            None => before.push((record.path@, false)),
        }
    }
}

/// The notes that a scan found and the cache does not hold, each once.
pub open spec fn new_changes(cache: Seq<CacheRecord>, notes: Seq<ScannedNote>) -> Seq<
    (Seq<char>, bool),
>
    decreases notes.len(),
{
    if notes.len() == 0 {
        Seq::empty()
    } else {
        let before = new_changes(cache, notes.drop_last());
        let path = notes.last().path@;
        if has_extension(path, "md"@) && !is_cached(cache, path) && on_disk(
            notes.drop_last(),
            path,
        ) is None {
            before.push((path, true))
        } else {
            before
        }
    }
}

/// What moved since the notes were cached.
pub open spec fn moved(cache: Seq<CacheRecord>, notes: Seq<ScannedNote>) -> Seq<
    (Seq<char>, bool),
> {
    cached_changes(cache, notes) + new_changes(cache, notes)
}

/// The names of the parts joined by slashes, where all parts are names and there is
/// at least one.
pub open spec fn key_of(rest: Seq<Part>) -> Option<Seq<char>> {
    if rest.len() > 0 && (forall|i: int|
        0 <= i < rest.len() ==> (#[trigger] rest[i]) is Normal) {
        Some(
            crate::lines::join(
                rest.map_values(|p: Part| crate::paths::part_text(p)),
                seq!['/'],
            ),
        )
    } else {
        None
    }
}

/// The key of a path: what it is called within the vault.
pub open spec fn vault_key(path: Seq<char>, vault_path: Seq<char>) -> Option<Seq<char>> {
    match below(path, vault_path) {
        Some(rest) => key_of(rest),
        None => None,
    }
}

/// The changes by key, without those outside of the vault and without those that
/// this process is writing.
pub open spec fn published(
    all: Seq<(Seq<char>, bool)>,
    vault_path: Seq<char>,
    claims: Multiset<Seq<char>>,
) -> Seq<(Seq<char>, bool)>
    decreases all.len(),
{
    if all.len() == 0 {
        Seq::empty()
    } else {
        let before = published(all.drop_last(), vault_path, claims);
        match vault_key(all.last().0, vault_path) {
            Some(key) => if claims.count(key) > 0 {
                before
            } else {
                before.push((key, all.last().1))
            },
            None => before,
        }
    }
}

/// Whether two revisions are the same.
fn same_print(a: &Option<FileFingerprint>, b: &FileFingerprint) -> (r: bool)
    ensures
        r == (*a == Some(*b)),
{
    match a {
        Some(x) => {
            let same_time: bool = match (x.modified, b.modified) {
                (Some(p), Some(q)) => p == q,
                (None, None) => true,
                _ => false,
            };
            x.size_bytes == b.size_bytes && same_time
        },
        None => false,
    }
}

/// Whether these are the parts of the notes that a scan found, one by one.
spec fn are_keys_of_notes(keys: Seq<Vec<PathPart>>, notes: Seq<ScannedNote>) -> bool {
    keys.len() == notes.len() && forall|i: int|
        0 <= i < keys.len() ==> part_models((#[trigger] keys[i])@) == parts(notes[i].path@)
}

/// Whether these are the parts of the records, one by one.
spec fn are_keys(keys: Seq<Vec<PathPart>>, cache: Seq<CacheRecord>) -> bool {
    keys.len() == cache.len() && forall|i: int|
        0 <= i < keys.len() ==> part_models((#[trigger] keys[i])@) == parts(cache[i].path@)
}

/// The revision of a note among the first `n` that a scan found.
fn find_print(
    notes: &Vec<ScannedNote>,
    keys: &Vec<Vec<PathPart>>,
    n: usize,
    key: &Vec<PathPart>,
) -> (r: Option<FileFingerprint>)
    requires
        n <= notes.len(),
        are_keys_of_notes(keys@, notes@),
    ensures
        r == print_at(notes@.take(n as int), part_models(key@)),
{
    let mut i: usize = n;
    while i > 0
        invariant
            i <= n <= notes.len(),
            are_keys_of_notes(keys@, notes@),
            print_at(notes@.take(n as int), part_models(key@)) == print_at(
                notes@.take(i as int),
                part_models(key@),
            ),
        decreases i,
    {
        assert(notes@.take(i as int).drop_last() =~= notes@.take(i - 1));
        assert(part_models(keys@[i - 1]@) == parts(notes@[i - 1].path@));
        if are_same_parts(&keys[i - 1], key) && is_note(notes[i - 1].path.as_str()) {
            return Some(notes[i - 1].fingerprint());
        }
        i = i - 1;
    }
    None
}

/// Where parts are among these.
fn place_of(keys: &Vec<Vec<PathPart>>, key: &Vec<PathPart>) -> (r: Option<usize>)
    ensures
        match r {
            Some(i) => i < keys.len() && part_models(keys@[i as int]@) == part_models(key@),
            None => forall|i: int|
                0 <= i < keys.len() ==> part_models((#[trigger] keys@[i])@) != part_models(key@),
        },
{
    let mut i: usize = 0;
    while i < keys.len()
        invariant
            i <= keys.len(),
            forall|k: int|
                0 <= k < i ==> part_models((#[trigger] keys@[k])@) != part_models(key@),
        decreases keys.len() - i,
    {
        if are_same_parts(&keys[i], key) {
            return Some(i);
        }
        i = i + 1;
    }
    None
}

proof fn lemma_place(keys: Seq<Vec<PathPart>>, cache: Seq<CacheRecord>, key: Seq<Part>)
    requires
        are_keys(keys, cache),
    ensures
        holds_key(cache, key) <==> exists|i: int|
            0 <= i < keys.len() && part_models((#[trigger] keys[i])@) == key,
{
    if holds_key(cache, key) {
        let i = choose|i: int| 0 <= i < cache.len() && parts((#[trigger] cache[i]).path@) == key;
        assert(part_models(keys[i]@) == key);
    }
    if exists|i: int| 0 <= i < keys.len() && part_models((#[trigger] keys[i])@) == key {
        let i = choose|i: int| 0 <= i < keys.len() && part_models((#[trigger] keys[i])@) == key;
        assert(parts(cache[i].path@) == key);
    }
}

/// What moved since the notes were cached, given what a scan found.
pub fn find_moved(cache: &Vec<CacheRecord>, notes: &Vec<ScannedNote>) -> (out: Vec<PathChange>)
    ensures
        changes(out@) == moved(cache@, notes@),
{
    let mut keys: Vec<Vec<PathPart>> = Vec::new();
    let mut n: usize = 0;
    while n < cache.len()
        invariant
            n <= cache.len(),
            keys.len() == n,
            forall|i: int|
                0 <= i < n ==> part_models((#[trigger] keys@[i])@) == parts(cache@[i].path@),
        decreases cache.len() - n,
    {
        keys.push(parts_of(cache[n].path.as_str()));
        n = n + 1;
    }
    find_moved_with(cache, &keys, notes)
}

/// What moved since the notes were cached, given what a scan found and the parts of the
/// cached paths.
fn find_moved_with(
    cache: &Vec<CacheRecord>,
    keys: &Vec<Vec<PathPart>>,
    notes: &Vec<ScannedNote>,
) -> (out: Vec<PathChange>)
    requires
        are_keys(keys@, cache@),
    ensures
        changes(out@) == moved(cache@, notes@),
{
    let mut note_keys: Vec<Vec<PathPart>> = Vec::new();
    let mut n: usize = 0;
    while n < notes.len()
        invariant
            n <= notes.len(),
            note_keys.len() == n,
            forall|i: int|
                0 <= i < n ==> part_models((#[trigger] note_keys@[i])@) == parts(notes@[i].path@),
        decreases notes.len() - n,
    {
        note_keys.push(parts_of(notes[n].path.as_str()));
        n = n + 1;
    }
    let mut out: Vec<PathChange> = Vec::new();
    let mut i: usize = 0;
    assert(changes(out@) =~= cached_changes(cache@.take(0), notes@));
    while i < cache.len()
        invariant
            i <= cache.len(),
            are_keys(keys@, cache@),
            are_keys_of_notes(note_keys@, notes@),
            changes(out@) == cached_changes(cache@.take(i as int), notes@),
        decreases cache.len() - i,
    {
        assert(cache@.take(i + 1).drop_last() =~= cache@.take(i as int));
        let ghost before = changes(out@);
        assert(notes@.take(notes.len() as int) =~= notes@);
        assert(part_models(keys@[i as int]@) == parts(cache@[i as int].path@));
        match find_print(notes, &note_keys, notes.len(), &keys[i]) {
            Some(print) => {
                if !same_print(&cache[i].observed, &print) {
                    out.push(PathChange { path: cache[i].path.clone(), present: true });
                    assert(changes(out@) =~= before.push((cache@[i as int].path@, true)));
                }
            },
            None => {
                out.push(PathChange { path: cache[i].path.clone(), present: false });
                assert(changes(out@) =~= before.push((cache@[i as int].path@, false)));
            },
        }
        i = i + 1;
    }
    assert(cache@.take(i as int) =~= cache@);
    let ghost known = changes(out@);
    let mut j: usize = 0;
    assert(changes(out@) =~= known + new_changes(cache@, notes@.take(0)));
    while j < notes.len()
        invariant
            j <= notes.len(),
            are_keys(keys@, cache@),
            are_keys_of_notes(note_keys@, notes@),
            changes(out@) == known + new_changes(cache@, notes@.take(j as int)),
        decreases notes.len() - j,
    {
        assert(notes@.take(j + 1).drop_last() =~= notes@.take(j as int));
        let path = notes[j].path.as_str();
        let key = &note_keys[j];
        assert(part_models(note_keys@[j as int]@) == parts(path@));
        proof {
            lemma_place(keys@, cache@, parts(path@));
        }
        if is_note(path) && place_of(keys, key).is_none() && find_print(
            notes,
            &note_keys,
            j,
            key,
        ).is_none() {
            let ghost before = changes(out@);
            out.push(PathChange { path: copy(path), present: true });
            assert(changes(out@) =~= before.push((path@, true)));
            assert(changes(out@) =~= known + new_changes(cache@, notes@.take(j + 1)));
        }
        j = j + 1;
    }
    assert(notes@.take(j as int) =~= notes@);
    out
}

/// The key of a path: what it is called within the vault, with slashes.
pub fn relative_key(path: &str, vault_path: &str) -> (r: Option<String>)
    ensures
        match r {
            Some(key) => vault_key(path@, vault_path@) == Some(key@),
            None => vault_key(path@, vault_path@) is None,
        },
{
    let rest = match parts_below(path, vault_path) {
        Some(rest) => rest,
        None => {
            return None;
        },
    };
    let ghost model = part_models(rest@);
    assert(below(path@, vault_path@) == Some(model));
    if rest.len() == 0 {
        return None;
    }
    let mut names: Vec<String> = Vec::new();
    let mut i: usize = 0;
    while i < rest.len()
        invariant
            i <= rest.len(),
            below(path@, vault_path@) == Some(model),
            model == part_models(rest@),
            names.len() == i,
            forall|k: int| 0 <= k < i ==> (#[trigger] model[k]) is Normal,
            forall|k: int|
                0 <= k < i ==> #[trigger] names@[k]@ == crate::paths::part_text(model[k]),
        decreases rest.len() - i,
    {
        assert(model[i as int] == rest@[i as int]@);
        match &rest[i] {
            PathPart::Normal(name) => {
                names.push(name.clone());
            },
            _ => {
                return None;
            },
        }
        i = i + 1;
    }
    proof {
        reveal_strlit("/");
        assert("/"@ =~= seq!['/']);
        assert(texts(names@) =~= model.map_values(|p: Part| crate::paths::part_text(p)));
    }
    Some(crate::lines::joined(&names, "/"))
}

/// The changes by key, without those outside of the vault and without those that
/// this process is writing.
pub fn without_claimed_paths(
    all: &Vec<PathChange>,
    vault_path: &str,
    claims: &WriteClaims,
) -> (out: Vec<PathChange>)
    ensures
        changes(out@) == published(changes(all@), vault_path@, claims@),
{
    let ghost model = changes(all@);
    let mut out: Vec<PathChange> = Vec::new();
    let mut i: usize = 0;
    assert(changes(out@) =~= published(model.take(0), vault_path@, claims@));
    while i < all.len()
        invariant
            i <= all.len(),
            model == changes(all@),
            changes(out@) == published(model.take(i as int), vault_path@, claims@),
        decreases all.len() - i,
    {
        assert(model.take(i + 1).drop_last() =~= model.take(i as int));
        assert(model[i as int] == (all@[i as int].path@, all@[i as int].present));
        match relative_key(all[i].path.as_str(), vault_path) {
            Some(key) => {
                if !claims.holds(key.as_str()) {
                    let ghost before = changes(out@);
                    let ghost item = (key@, all@[i as int].present);
                    out.push(PathChange { path: key, present: all[i].present });
                    assert(changes(out@) =~= before.push(item));
                }
            },
            None => {},
        }
        i = i + 1;
    }
    assert(model.take(i as int) =~= model);
    out
}

/// What a sweep reports, given what a scan found.
pub fn sweep_for_external_changes(
    cache: &Vec<CacheRecord>,
    notes: &Vec<ScannedNote>,
    vault_path: &str,
    claims: &WriteClaims,
) -> (out: Vec<PathChange>)
    ensures
        changes(out@) == published(moved(cache@, notes@), vault_path@, claims@),
{
    let all = find_moved(cache, notes);
    without_claimed_paths(&all, vault_path, claims)
}

/// Whether the cache holds the revision of every note on disk, and nothing else.
pub open spec fn is_current(cache: Seq<CacheRecord>, notes: Seq<ScannedNote>) -> bool {
    &&& forall|i: int|
        0 <= i < cache.len() ==> on_disk(notes, (#[trigger] cache[i]).path@) is Some
            && cache[i].observed == on_disk(notes, cache[i].path@)
    &&& forall|i: int|
        0 <= i < notes.len() && has_extension((#[trigger] notes[i]).path@, "md"@) ==> is_cached(
            cache,
            notes[i].path@,
        )
}

/// A sweep that finds nothing new reports nothing: neither notes whose revision is
/// known, nor files that are no notes.
pub proof fn lemma_sweep_is_silent(cache: Seq<CacheRecord>, notes: Seq<ScannedNote>)
    requires
        is_current(cache, notes),
    ensures
        moved(cache, notes) == Seq::<(Seq<char>, bool)>::empty(),
{
    lemma_cached_silent(cache, notes);
    lemma_new_silent(cache, notes);
    assert(moved(cache, notes) =~= Seq::<(Seq<char>, bool)>::empty());
}

proof fn lemma_cached_silent(cache: Seq<CacheRecord>, notes: Seq<ScannedNote>)
    requires
        forall|i: int|
            0 <= i < cache.len() ==> on_disk(notes, (#[trigger] cache[i]).path@) is Some
                && cache[i].observed == on_disk(notes, cache[i].path@),
    ensures
        cached_changes(cache, notes).len() == 0,
    decreases cache.len(),
{
    if cache.len() > 0 {
        assert forall|i: int| 0 <= i < cache.drop_last().len() implies on_disk(
            notes,
            (#[trigger] cache.drop_last()[i]).path@,
        ) is Some && cache.drop_last()[i].observed == on_disk(
            notes,
            cache.drop_last()[i].path@,
        ) by {
            assert(cache[i] == cache.drop_last()[i]);
        }
        lemma_cached_silent(cache.drop_last(), notes);
        assert(cache[cache.len() - 1].observed == on_disk(notes, cache.last().path@));
    }
}

proof fn lemma_new_silent(cache: Seq<CacheRecord>, notes: Seq<ScannedNote>)
    requires
        forall|i: int|
            0 <= i < notes.len() && has_extension((#[trigger] notes[i]).path@, "md"@)
                ==> is_cached(cache, notes[i].path@),
    ensures
        new_changes(cache, notes).len() == 0,
    decreases notes.len(),
{
    if notes.len() > 0 {
        assert forall|i: int|
            0 <= i < notes.drop_last().len() && has_extension(
                (#[trigger] notes.drop_last()[i]).path@,
                "md"@,
            ) implies is_cached(cache, notes.drop_last()[i].path@) by {
            assert(notes[i] == notes.drop_last()[i]);
        }
        lemma_new_silent(cache, notes.drop_last());
        assert(has_extension(notes[notes.len() - 1].path@, "md"@) ==> is_cached(
            cache,
            notes[notes.len() - 1].path@,
        ));
    }
}

/// Whether a change says of a path, in this or another spelling, that it is there or gone.
pub open spec fn is_reported(all: Seq<(Seq<char>, bool)>, path: Seq<char>, present: bool) -> bool {
    exists|k: int|
        0 <= k < all.len() && parts((#[trigger] all[k]).0) == parts(path) && all[k].1 == present
}

/// A note that the cache does not hold is reported.
pub proof fn lemma_sweep_finds_new_note(
    cache: Seq<CacheRecord>,
    notes: Seq<ScannedNote>,
    at: int,
)
    requires
        0 <= at < notes.len(),
        has_extension(notes[at].path@, "md"@),
        !is_cached(cache, notes[at].path@),
    ensures
        is_reported(moved(cache, notes), notes[at].path@, true),
{
    let k = lemma_new_contains(cache, notes, at);
    let new = new_changes(cache, notes);
    let all = moved(cache, notes);
    assert(all[cached_changes(cache, notes).len() + k] == new[k]);
}

proof fn lemma_print_witness(notes: Seq<ScannedNote>, key: Seq<Part>) -> (at: int)
    requires
        print_at(notes, key) is Some,
    ensures
        0 <= at < notes.len(),
        parts(notes[at].path@) == key,
        has_extension(notes[at].path@, "md"@),
    decreases notes.len(),
{
    if parts(notes.last().path@) == key && has_extension(notes.last().path@, "md"@) {
        notes.len() - 1
    } else {
        lemma_print_witness(notes.drop_last(), key)
    }
}

/// The extension of a path is the same in all its spellings.
proof fn lemma_same_extension(a: Seq<char>, b: Seq<char>, wanted: Seq<char>)
    requires
        parts(a) == parts(b),
    ensures
        has_extension(a, wanted) == has_extension(b, wanted),
{
}

proof fn lemma_new_contains(cache: Seq<CacheRecord>, notes: Seq<ScannedNote>, at: int) -> (k: int)
    requires
        0 <= at < notes.len(),
        has_extension(notes[at].path@, "md"@),
        !is_cached(cache, notes[at].path@),
    ensures
        0 <= k < new_changes(cache, notes).len(),
        parts(new_changes(cache, notes)[k].0) == parts(notes[at].path@),
        new_changes(cache, notes)[k].1,
    decreases notes.len(),
{
    let path = notes[at].path@;
    let front = notes.drop_last();
    let before = new_changes(cache, front);
    let after = new_changes(cache, notes);
    if at < notes.len() - 1 {
        let k = lemma_new_contains(cache, front, at);
        assert(after[k] == before[k]);
        k
    } else if on_disk(front, path) is Some {
        let first = lemma_print_witness(front, parts(path));
        let k = lemma_new_contains(cache, front, first);
        assert(after[k] == before[k]);
        k
    } else {
        after.len() - 1
    }
}

/// Only notes are reported as new or changed in place; a file that is no note is
/// never reported, however often it changes.
pub proof fn lemma_sweep_ignores_other_files(
    cache: Seq<CacheRecord>,
    notes: Seq<ScannedNote>,
    k: int,
)
    requires
        0 <= k < moved(cache, notes).len(),
        moved(cache, notes)[k].1,
    ensures
        has_extension(moved(cache, notes)[k].0, "md"@),
{
    let known = cached_changes(cache, notes);
    lemma_cached_are_notes(cache, notes);
    lemma_new_are_notes(cache, notes);
    if k < known.len() {
        assert(moved(cache, notes)[k] == known[k]);
    } else {
        assert(moved(cache, notes)[k] == new_changes(cache, notes)[k - known.len()]);
    }
}

proof fn lemma_cached_are_notes(cache: Seq<CacheRecord>, notes: Seq<ScannedNote>)
    ensures
        forall|k: int|
            0 <= k < cached_changes(cache, notes).len() && (#[trigger] cached_changes(
                cache,
                notes,
            )[k]).1 ==> has_extension(cached_changes(cache, notes)[k].0, "md"@),
    decreases cache.len(),
{
    if cache.len() > 0 {
        lemma_cached_are_notes(cache.drop_last(), notes);
        let before = cached_changes(cache.drop_last(), notes);
        let after = cached_changes(cache, notes);
        assert forall|k: int| 0 <= k < after.len() && (#[trigger] after[k]).1 implies has_extension(
            after[k].0,
            "md"@,
        ) by {
            if k < before.len() {
                assert(after[k] == before[k]);
            } else {
                let at = lemma_print_witness(notes, parts(cache.last().path@));
                lemma_same_extension(notes[at].path@, cache.last().path@, "md"@);
            }
        }
    }
}

proof fn lemma_new_are_notes(cache: Seq<CacheRecord>, notes: Seq<ScannedNote>)
    ensures
        forall|k: int|
            0 <= k < new_changes(cache, notes).len() ==> has_extension(
                (#[trigger] new_changes(cache, notes)[k]).0,
                "md"@,
            ),
    decreases notes.len(),
{
    if notes.len() > 0 {
        lemma_new_are_notes(cache, notes.drop_last());
        let before = new_changes(cache, notes.drop_last());
        let after = new_changes(cache, notes);
        assert forall|k: int| 0 <= k < after.len() implies has_extension(
            (#[trigger] after[k]).0,
            "md"@,
        ) by {
            if k < before.len() {
                assert(after[k] == before[k]);
            }
        }
    }
}

// ---------------------------------------------------------------------------
// What the cache knows
// ---------------------------------------------------------------------------

/// Whether no note is held twice, in whatever spelling of its path.
pub open spec fn is_distinct(cache: Seq<CacheRecord>) -> bool {
    forall|i: int, j: int|
        0 <= i < j < cache.len() ==> parts((#[trigger] cache[i]).path@) != parts(
            (#[trigger] cache[j]).path@,
        )
}

/// What is known of each note, by the parts of its path.
pub open spec fn known(cache: Seq<CacheRecord>) -> Map<Seq<Part>, Option<FileFingerprint>>
    decreases cache.len(),
{
    if cache.len() == 0 {
        Map::empty()
    } else {
        known(cache.drop_last()).insert(parts(cache.last().path@), cache.last().observed)
    }
}

proof fn lemma_known(cache: Seq<CacheRecord>)
    requires
        is_distinct(cache),
    ensures
        forall|p: Seq<Part>| #[trigger] known(cache).dom().contains(p) <==> holds_key(cache, p),
        forall|i: int|
            0 <= i < cache.len() ==> known(cache)[parts((#[trigger] cache[i]).path@)]
                == cache[i].observed,
    decreases cache.len(),
{
    if cache.len() > 0 {
        let front = cache.drop_last();
        lemma_distinct_front(cache);
        lemma_known(front);
        assert forall|p: Seq<Part>| #[trigger] known(cache).dom().contains(p) <==> holds_key(
            cache,
            p,
        ) by {
            if holds_key(front, p) {
                let i = choose|i: int| 0 <= i < front.len() && parts((#[trigger] front[i]).path@)
                    == p;
                assert(cache[i] == front[i]);
            }
            if holds_key(cache, p) && parts(cache.last().path@) != p {
                let i = choose|i: int| 0 <= i < cache.len() && parts((#[trigger] cache[i]).path@)
                    == p;
                assert(front[i] == cache[i]);
            }
            if parts(cache.last().path@) == p {
                assert(parts(cache[cache.len() - 1].path@) == p);
            }
        }
        assert forall|i: int| 0 <= i < cache.len() implies known(cache)[parts(
            (#[trigger] cache[i]).path@,
        )] == cache[i].observed by {
            if i < front.len() {
                assert(front[i] == cache[i]);
                assert(parts(cache[i].path@) != parts(cache[cache.len() - 1].path@));
            }
        }
    }
}

proof fn lemma_distinct_front(cache: Seq<CacheRecord>)
    requires
        is_distinct(cache),
        cache.len() > 0,
    ensures
        is_distinct(cache.drop_last()),
        !holds_key(cache.drop_last(), parts(cache.last().path@)),
{
    let front = cache.drop_last();
    assert forall|i: int, j: int| 0 <= i < j < front.len() implies parts(
        (#[trigger] front[i]).path@,
    ) != parts((#[trigger] front[j]).path@) by {
        assert(front[i] == cache[i] && front[j] == cache[j]);
    }
    let key = parts(cache.last().path@);
    if holds_key(front, key) {
        let i = choose|i: int| 0 <= i < front.len() && parts((#[trigger] front[i]).path@) == key;
        assert(parts(cache[i].path@) != parts(cache[cache.len() - 1].path@));
    }
}

/// What is known of the notes of a vault: of each the revision that was read last.
#[derive(Debug)]
pub struct NoteCache {
    records: Vec<CacheRecord>,
    /// The parts of the paths of the records.
    keys: Vec<Vec<PathPart>>,
}

impl View for NoteCache {
    type V = Map<Seq<Part>, Option<FileFingerprint>>;

    closed spec fn view(&self) -> Map<Seq<Part>, Option<FileFingerprint>> {
        known(self.records@)
    }
}

impl NoteCache {
    #[verifier::type_invariant]
    spec fn inv(self) -> bool {
        is_distinct(self.records@) && are_keys(self.keys@, self.records@)
    }

    /// The records that stand behind what is known.
    pub closed spec fn held(&self) -> Seq<CacheRecord> {
        self.records@
    }

    /// Nothing is known yet.
    pub fn new() -> (r: NoteCache)
        ensures
            r@ == Map::<Seq<Part>, Option<FileFingerprint>>::empty(),
    {
        NoteCache { records: Vec::new(), keys: Vec::new() }
    }

    /// What is known of a note, if anything is.
    pub fn get(&self, path: &str) -> (r: Option<Option<FileFingerprint>>)
        ensures
            r == if self@.dom().contains(parts(path@)) {
                Some(self@[parts(path@)])
            } else {
                None
            },
    {
        proof {
            use_type_invariant(self);
            lemma_known(self.records@);
            lemma_place(self.keys@, self.records@, parts(path@));
        }
        match place_of(&self.keys, &parts_of(path)) {
            Some(i) => {
                assert(parts(self.records@[i as int].path@) == parts(path@));
                Some(self.records[i].observed)
            },
            None => None,
        }
    }

    /// How many notes are known.
    pub fn len(&self) -> (n: usize)
        ensures
            n == self@.dom().len(),
            self@.dom().finite(),
    {
        proof {
            use_type_invariant(self);
            lemma_known_len(self.records@);
        }
        self.records.len()
    }

    /// A note was read, in this revision where it is known.
    pub fn remember(&mut self, path: &str, observed: Option<FileFingerprint>)
        ensures
            final(self)@ == old(self)@.insert(parts(path@), observed),
    {
        let key = parts_of(path);
        let mut whole = NoteCache::new();
        std::mem::swap(&mut whole, self);
        proof {
            use_type_invariant(&whole);
            lemma_place(whole.keys@, whole.records@, parts(path@));
        }
        let mut records = whole.records;
        let mut keys = whole.keys;
        let ghost before = records@;
        match place_of(&keys, &key) {
            Some(i) => {
                assert(parts(before[i as int].path@) == parts(path@));
                let record = CacheRecord { path: records[i].path.clone(), observed };
                records.set(i, record);
                proof {
                    lemma_known_set(before, i as int, record);
                }
            },
            None => {
                let record = CacheRecord { path: copy(path), observed };
                records.push(record);
                keys.push(key);
                proof {
                    assert(records@.drop_last() =~= before);
                    lemma_distinct_push(before, record);
                }
            },
        }
        assert(are_keys(keys@, records@));
        *self = NoteCache { records, keys };
    }

    /// A note is gone.
    pub fn evict(&mut self, path: &str)
        ensures
            final(self)@ == old(self)@.remove(parts(path@)),
    {
        let key = parts_of(path);
        let mut whole = NoteCache::new();
        std::mem::swap(&mut whole, self);
        proof {
            use_type_invariant(&whole);
            lemma_place(whole.keys@, whole.records@, parts(path@));
        }
        let mut records = whole.records;
        let mut keys = whole.keys;
        let ghost before = records@;
        match place_of(&keys, &key) {
            Some(i) => {
                assert(parts(before[i as int].path@) == parts(path@));
                let gone = records.remove(i);
                let gone_key = keys.remove(i);
                proof {
                    lemma_known_remove(before, i as int);
                    assert(records@ =~= before.remove(i as int));
                }
            },
            None => {
                proof {
                    lemma_known(before);
                    assert(known(before).remove(parts(path@)) =~= known(before));
                }
            },
        }
        assert(are_keys(keys@, records@));
        *self = NoteCache { records, keys };
    }

    /// What a sweep reports, given what a scan found.
    pub fn sweep(
        &self,
        notes: &Vec<ScannedNote>,
        vault_path: &str,
        claims: &WriteClaims,
    ) -> (out: Vec<PathChange>)
        ensures
            changes(out@) == published(moved(self.held(), notes@), vault_path@, claims@),
            is_distinct(self.held()),
            known(self.held()) == self@,
    {
        proof {
            use_type_invariant(self);
        }
        let all = find_moved_with(&self.records, &self.keys, notes);
        without_claimed_paths(&all, vault_path, claims)
    }
}

proof fn lemma_distinct_push(cache: Seq<CacheRecord>, record: CacheRecord)
    requires
        is_distinct(cache),
        !is_cached(cache, record.path@),
    ensures
        is_distinct(cache.push(record)),
{
    let all = cache.push(record);
    assert forall|i: int, j: int| 0 <= i < j < all.len() implies parts((#[trigger] all[i]).path@)
        != parts((#[trigger] all[j]).path@) by {
        assert(all[i] == cache[i]);
        if j < cache.len() {
            assert(all[j] == cache[j]);
        }
    }
}

proof fn lemma_known_len(cache: Seq<CacheRecord>)
    requires
        is_distinct(cache),
    ensures
        known(cache).dom().finite(),
        known(cache).dom().len() == cache.len(),
    decreases cache.len(),
{
    if cache.len() > 0 {
        let front = cache.drop_last();
        lemma_distinct_front(cache);
        lemma_known_len(front);
        lemma_known(front);
        let key = parts(cache.last().path@);
        assert(!known(front).dom().contains(key));
        assert(known(cache).dom() =~= known(front).dom().insert(key));
    }
}

proof fn lemma_known_set(cache: Seq<CacheRecord>, at: int, record: CacheRecord)
    requires
        is_distinct(cache),
        0 <= at < cache.len(),
        parts(cache[at].path@) == parts(record.path@),
    ensures
        is_distinct(cache.update(at, record)),
        known(cache.update(at, record)) == known(cache).insert(
            parts(record.path@),
            record.observed,
        ),
{
    let all = cache.update(at, record);
    assert forall|i: int| 0 <= i < all.len() implies parts((#[trigger] all[i]).path@) == parts(
        cache[i].path@,
    ) by {}
    assert(is_distinct(all)) by {
        assert forall|i: int, j: int| 0 <= i < j < all.len() implies parts(
            (#[trigger] all[i]).path@,
        ) != parts((#[trigger] all[j]).path@) by {
            assert(parts(cache[i].path@) != parts(cache[j].path@));
        }
    }
    lemma_known(cache);
    lemma_known(all);
    let wanted = known(cache).insert(parts(record.path@), record.observed);
    assert forall|p: Seq<Part>| #[trigger] known(all).dom().contains(p) <==> wanted.dom().contains(
        p,
    ) by {
        if holds_key(all, p) {
            let i = choose|i: int| 0 <= i < all.len() && parts((#[trigger] all[i]).path@) == p;
            assert(parts(cache[i].path@) == p);
        }
        if holds_key(cache, p) {
            let i = choose|i: int| 0 <= i < cache.len() && parts((#[trigger] cache[i]).path@) == p;
            assert(parts(all[i].path@) == p);
        }
        if p == parts(record.path@) {
            assert(parts(all[at].path@) == p);
        }
    }
    assert forall|p: Seq<Part>| #[trigger] known(all).dom().contains(p) implies known(all)[p]
        == wanted[p] by {
        let i = choose|i: int| 0 <= i < all.len() && parts((#[trigger] all[i]).path@) == p;
        assert(parts(cache[i].path@) == p);
        if i == at {
            assert(all[at] == record);
        } else {
            assert(all[i] == cache[i]);
            if i < at {
                assert(parts(cache[i].path@) != parts(cache[at].path@));
            } else {
                assert(parts(cache[at].path@) != parts(cache[i].path@));
            }
        }
    }
    assert(known(all) =~= wanted);
}

proof fn lemma_known_remove(cache: Seq<CacheRecord>, at: int)
    requires
        is_distinct(cache),
        0 <= at < cache.len(),
    ensures
        is_distinct(cache.remove(at)),
        known(cache.remove(at)) == known(cache).remove(parts(cache[at].path@)),
{
    let all = cache.remove(at);
    let key = parts(cache[at].path@);
    assert forall|i: int, j: int| 0 <= i < j < all.len() implies parts((#[trigger] all[i]).path@)
        != parts((#[trigger] all[j]).path@) by {
        let x = if i < at { i } else { i + 1 };
        let y = if j < at { j } else { j + 1 };
        assert(all[i] == cache[x] && all[j] == cache[y]);
    }
    lemma_known(cache);
    lemma_known(all);
    let wanted = known(cache).remove(key);
    assert forall|p: Seq<Part>| #[trigger] known(all).dom().contains(p) <==> wanted.dom().contains(
        p,
    ) by {
        if holds_key(all, p) {
            let i = choose|i: int| 0 <= i < all.len() && parts((#[trigger] all[i]).path@) == p;
            let x = if i < at { i } else { i + 1 };
            assert(cache[x] == all[i]);
            if x < at {
                assert(parts(cache[x].path@) != parts(cache[at].path@));
            } else {
                assert(parts(cache[at].path@) != parts(cache[x].path@));
            }
        }
        if holds_key(cache, p) && p != key {
            let i = choose|i: int| 0 <= i < cache.len() && parts((#[trigger] cache[i]).path@) == p;
            let x = if i < at { i } else { i - 1 };
            assert(all[x] == cache[i]);
        }
    }
    assert forall|p: Seq<Part>| #[trigger] known(all).dom().contains(p) implies known(all)[p]
        == wanted[p] by {
        let i = choose|i: int| 0 <= i < all.len() && parts((#[trigger] all[i]).path@) == p;
        let x = if i < at { i } else { i + 1 };
        assert(cache[x] == all[i]);
    }
    assert(known(all) =~= wanted);
}

/// What is known once changes were taken in: a note that is there was read again, in the
/// revision that the scan found, and one that is gone was forgotten.
pub open spec fn after_changes(
    before: Map<Seq<Part>, Option<FileFingerprint>>,
    all: Seq<(Seq<char>, bool)>,
    notes: Seq<ScannedNote>,
) -> Map<Seq<Part>, Option<FileFingerprint>>
    decreases all.len(),
{
    if all.len() == 0 {
        before
    } else {
        let inner = after_changes(before, all.drop_last(), notes);
        if all.last().1 {
            inner.insert(parts(all.last().0), on_disk(notes, all.last().0))
        } else {
            inner.remove(parts(all.last().0))
        }
    }
}

/// The notes that a scan found, each in its revision.
pub open spec fn disk(notes: Seq<ScannedNote>) -> Map<Seq<Part>, Option<FileFingerprint>> {
    Map::new(|p: Seq<Part>| print_at(notes, p) is Some, |p: Seq<Part>| print_at(notes, p))
}

/// Once the changes that a sweep finds were taken in, what is known agrees with the disk:
/// every note there is known in its revision, and no other is.
pub proof fn lemma_sweep_brings_cache_up_to_date(
    cache: Seq<CacheRecord>,
    notes: Seq<ScannedNote>,
)
    requires
        is_distinct(cache),
    ensures
        after_changes(known(cache), moved(cache, notes), notes) == disk(notes),
{
    let all = moved(cache, notes);
    let result = after_changes(known(cache), all, notes);
    lemma_known(cache);
    lemma_moved_tells_the_truth(cache, notes);
    assert forall|p: Seq<Part>| agrees(result, notes, p) by {
        lemma_after_changes(known(cache), all, notes, p);
        if !is_about(all, p) {
            if holds_key(cache, p) {
                let i = choose|i: int| 0 <= i < cache.len() && parts((#[trigger] cache[i]).path@)
                    == p;
                lemma_cached_contains(cache, notes, i);
            } else if print_at(notes, p) is Some {
                let at = lemma_print_witness(notes, p);
                lemma_sweep_finds_new_note(cache, notes, at);
                let k = choose|k: int|
                    0 <= k < all.len() && parts((#[trigger] all[k]).0) == parts(notes[at].path@)
                        && all[k].1 == true;
                assert(parts(all[k].0) == p);
            }
        }
    }
    assert forall|p: Seq<Part>| #[trigger] result.dom().contains(p) <==> disk(
        notes,
    ).dom().contains(p) by {
        assert(agrees(result, notes, p));
    }
    assert forall|p: Seq<Part>| #[trigger] result.dom().contains(p) implies result[p] == disk(
        notes,
    )[p] by {
        assert(agrees(result, notes, p));
    }
    assert(result =~= disk(notes));
}

/// Whether what is known of a path is what the scan found.
spec fn agrees(
    held: Map<Seq<Part>, Option<FileFingerprint>>,
    notes: Seq<ScannedNote>,
    key: Seq<Part>,
) -> bool {
    &&& held.dom().contains(key) <==> print_at(notes, key) is Some
    &&& held.dom().contains(key) ==> held[key] == print_at(notes, key)
}

/// Whether a change is about a path.
spec fn is_about(all: Seq<(Seq<char>, bool)>, key: Seq<Part>) -> bool {
    exists|k: int| 0 <= k < all.len() && parts((#[trigger] all[k]).0) == key
}

/// Whether each change says of its path what the scan found.
spec fn is_truthful(all: Seq<(Seq<char>, bool)>, notes: Seq<ScannedNote>) -> bool {
    forall|k: int|
        0 <= k < all.len() ==> (#[trigger] all[k]).1 == (on_disk(notes, all[k].0) is Some)
}

proof fn lemma_after_changes(
    before: Map<Seq<Part>, Option<FileFingerprint>>,
    all: Seq<(Seq<char>, bool)>,
    notes: Seq<ScannedNote>,
    key: Seq<Part>,
)
    requires
        is_truthful(all, notes),
    ensures
        is_about(all, key) ==> agrees(after_changes(before, all, notes), notes, key),
        !is_about(all, key) ==> {
            let after = after_changes(before, all, notes);
            &&& after.dom().contains(key) == before.dom().contains(key)
            &&& before.dom().contains(key) ==> after[key] == before[key]
        },
    decreases all.len(),
{
    if all.len() > 0 {
        let front = all.drop_last();
        assert(is_truthful(front, notes)) by {
            assert forall|k: int| 0 <= k < front.len() implies (#[trigger] front[k]).1 == (on_disk(
                notes,
                front[k].0,
            ) is Some) by {
                assert(all[k] == front[k]);
            }
        }
        lemma_after_changes(before, front, notes, key);
        assert(all[all.len() - 1] == all.last());
        if is_about(front, key) {
            let k = choose|k: int| 0 <= k < front.len() && parts((#[trigger] front[k]).0) == key;
            assert(all[k] == front[k]);
        }
        if is_about(all, key) && parts(all.last().0) != key {
            let k = choose|k: int| 0 <= k < all.len() && parts((#[trigger] all[k]).0) == key;
            assert(front[k] == all[k]);
        }
    }
}

proof fn lemma_moved_tells_the_truth(cache: Seq<CacheRecord>, notes: Seq<ScannedNote>)
    ensures
        is_truthful(moved(cache, notes), notes),
{
    lemma_cached_truthful(cache, notes);
    lemma_new_truthful(cache, notes);
    let first = cached_changes(cache, notes);
    let second = new_changes(cache, notes);
    let all = moved(cache, notes);
    assert forall|k: int| 0 <= k < all.len() implies (#[trigger] all[k]).1 == (on_disk(
        notes,
        all[k].0,
    ) is Some) by {
        if k < first.len() {
            assert(all[k] == first[k]);
        } else {
            assert(all[k] == second[k - first.len()]);
        }
    }
}

proof fn lemma_cached_truthful(cache: Seq<CacheRecord>, notes: Seq<ScannedNote>)
    ensures
        is_truthful(cached_changes(cache, notes), notes),
    decreases cache.len(),
{
    if cache.len() > 0 {
        lemma_cached_truthful(cache.drop_last(), notes);
        let before = cached_changes(cache.drop_last(), notes);
        let after = cached_changes(cache, notes);
        assert forall|k: int| 0 <= k < after.len() implies (#[trigger] after[k]).1 == (on_disk(
            notes,
            after[k].0,
        ) is Some) by {
            if k < before.len() {
                assert(after[k] == before[k]);
            }
        }
    }
}

proof fn lemma_new_truthful(cache: Seq<CacheRecord>, notes: Seq<ScannedNote>)
    ensures
        is_truthful(new_changes(cache, notes), notes),
    decreases notes.len(),
{
    if notes.len() > 0 {
        let front = notes.drop_last();
        lemma_new_truthful(cache, front);
        let before = new_changes(cache, front);
        let after = new_changes(cache, notes);
        lemma_new_are_notes(cache, front);
        assert forall|k: int| 0 <= k < after.len() implies (#[trigger] after[k]).1 == (on_disk(
            notes,
            after[k].0,
        ) is Some) by {
            if k < before.len() {
                assert(after[k] == before[k]);
                lemma_new_present(cache, front, k);
            }
        }
    }
}

proof fn lemma_new_present(cache: Seq<CacheRecord>, notes: Seq<ScannedNote>, k: int)
    requires
        0 <= k < new_changes(cache, notes).len(),
    ensures
        new_changes(cache, notes)[k].1,
    decreases notes.len(),
{
    let before = new_changes(cache, notes.drop_last());
    if k < before.len() {
        lemma_new_present(cache, notes.drop_last(), k);
        assert(new_changes(cache, notes)[k] == before[k]);
    }
}

proof fn lemma_cached_contains(cache: Seq<CacheRecord>, notes: Seq<ScannedNote>, i: int)
    requires
        0 <= i < cache.len(),
    ensures
        on_disk(notes, cache[i].path@) is Some && cache[i].observed == on_disk(
            notes,
            cache[i].path@,
        ) || is_about(moved(cache, notes), parts(cache[i].path@)),
{
    lemma_cached_about(cache, notes, i);
    let first = cached_changes(cache, notes);
    let all = moved(cache, notes);
    if is_about(first, parts(cache[i].path@)) {
        let k = choose|k: int| 0 <= k < first.len() && parts((#[trigger] first[k]).0) == parts(
            cache[i].path@,
        );
        assert(all[k] == first[k]);
    }
}

proof fn lemma_cached_about(cache: Seq<CacheRecord>, notes: Seq<ScannedNote>, i: int)
    requires
        0 <= i < cache.len(),
    ensures
        on_disk(notes, cache[i].path@) is Some && cache[i].observed == on_disk(
            notes,
            cache[i].path@,
        ) || is_about(cached_changes(cache, notes), parts(cache[i].path@)),
    decreases cache.len(),
{
    let front = cache.drop_last();
    let before = cached_changes(front, notes);
    let after = cached_changes(cache, notes);
    if i < front.len() {
        lemma_cached_about(front, notes, i);
        assert(front[i] == cache[i]);
        if is_about(before, parts(cache[i].path@)) {
            let k = choose|k: int|
                0 <= k < before.len() && parts((#[trigger] before[k]).0) == parts(cache[i].path@);
            assert(after[k] == before[k]);
        }
    } else if after.len() > before.len() {
        assert(after[after.len() - 1].0 == cache[i].path@);
    }
}

/// A path that this process is writing is never reported as somebody else's edit.
pub proof fn lemma_claimed_paths_are_not_published(
    all: Seq<(Seq<char>, bool)>,
    vault_path: Seq<char>,
    claims: Multiset<Seq<char>>,
)
    ensures
        forall|k: int|
            0 <= k < published(all, vault_path, claims).len() ==> claims.count(
                (#[trigger] published(all, vault_path, claims)[k]).0,
            ) == 0,
    decreases all.len(),
{
    if all.len() > 0 {
        lemma_claimed_paths_are_not_published(all.drop_last(), vault_path, claims);
        let before = published(all.drop_last(), vault_path, claims);
        let after = published(all, vault_path, claims);
        assert forall|k: int| 0 <= k < after.len() implies claims.count((#[trigger] after[k]).0)
            == 0 by {
            if k < before.len() {
                assert(after[k] == before[k]);
            }
        }
    }
}

// ---------------------------------------------------------------------------
// Telling others
// ---------------------------------------------------------------------------

/// Who made a change.
#[derive(Debug, Clone, Copy, PartialEq, Eq, Structural)]
pub enum CommitOrigin {
    /// This process.
    Local,
    /// Somebody else.
    External,
}

/// A path that moved, whether it is there now, and who moved it.
#[derive(Debug)]
pub struct OriginChange {
    pub path: String,
    pub present: bool,
    pub origin: CommitOrigin,
}

/// The model of changes with their origin.
pub open spec fn origin_changes(v: Seq<OriginChange>) -> Seq<(Seq<char>, bool, CommitOrigin)> {
    v.map_values(|c: OriginChange| (c.path@, c.present, c.origin))
}

/// The changes, each with the same origin.
pub open spec fn tagged(all: Seq<(Seq<char>, bool)>, origin: CommitOrigin) -> Seq<
    (Seq<char>, bool, CommitOrigin),
> {
    all.map_values(|c: (Seq<char>, bool)| (c.0, c.1, origin))
}

/// The changes, each with the same origin.
pub fn with_origin(changed: &Vec<PathChange>, origin: CommitOrigin) -> (out: Vec<OriginChange>)
    ensures
        origin_changes(out@) == tagged(changes(changed@), origin),
{
    let mut out: Vec<OriginChange> = Vec::new();
    let mut i: usize = 0;
    while i < changed.len()
        invariant
            i <= changed.len(),
            out.len() == i,
            forall|k: int|
                0 <= k < i ==> (#[trigger] out@[k]).path@ == changed@[k].path@ && out@[k].present
                    == changed@[k].present && out@[k].origin == origin,
        decreases changed.len() - i,
    {
        out.push(
            OriginChange { path: changed[i].path.clone(), present: changed[i].present, origin },
        );
        i = i + 1;
    }
    assert(origin_changes(out@) =~= tagged(changes(changed@), origin));
    out
}

/// A commit that was taken from the queue: who made it and what it changed.
#[derive(Debug)]
pub struct DrainedCommit {
    pub origin: CommitOrigin,
    pub changes: Vec<PathChange>,
}

/// What all commits changed, in the order in which they were taken.
pub open spec fn collapsed(all: Seq<DrainedCommit>) -> Seq<(Seq<char>, bool, CommitOrigin)>
    decreases all.len(),
{
    if all.len() == 0 {
        Seq::empty()
    } else {
        collapsed(all.drop_last()) + tagged(changes(all.last().changes@), all.last().origin)
    }
}

/// What all commits changed, in the order in which they were taken.
pub fn collapse_drained(all: &Vec<DrainedCommit>) -> (out: Vec<OriginChange>)
    ensures
        origin_changes(out@) == collapsed(all@),
{
    let mut out: Vec<OriginChange> = Vec::new();
    let mut i: usize = 0;
    assert(origin_changes(out@) =~= collapsed(all@.take(0)));
    while i < all.len()
        invariant
            i <= all.len(),
            origin_changes(out@) == collapsed(all@.take(i as int)),
        decreases all.len() - i,
    {
        assert(all@.take(i + 1).drop_last() =~= all@.take(i as int));
        let ghost before = origin_changes(out@);
        let mut tail = with_origin(&all[i].changes, all[i].origin);
        let ghost added = origin_changes(tail@);
        out.append(&mut tail);
        assert(origin_changes(out@) =~= before + added);
        i = i + 1;
    }
    assert(all@.take(i as int) =~= all@);
    out
}

/// What is done about a changed path.
#[derive(Debug, Clone, Copy, PartialEq, Eq, Structural)]
pub enum SyncAction {
    /// It is no note, or it came back in the meantime.
    Ignore,
    /// It is read and parsed again.
    Parse,
    /// It is dropped from the cache and the graph.
    Evict,
}

/// What is done about a changed path, given whether a file is there now: a note that
/// is present is parsed, and one that is not is dropped, unless it came back.
pub fn sync_action(path: &str, present: bool, exists_now: bool) -> (r: SyncAction)
    ensures
        r == if !has_extension(path@, "md"@) {
            SyncAction::Ignore
        } else if present {
            SyncAction::Parse
        } else if exists_now {
            SyncAction::Ignore
        } else {
            SyncAction::Evict
        },
        r == SyncAction::Parse <==> present && has_extension(path@, "md"@),
        r == SyncAction::Evict <==> !present && !exists_now && has_extension(path@, "md"@),
{
    if !is_note(path) {
        SyncAction::Ignore
    } else if present {
        SyncAction::Parse
    } else if exists_now {
        SyncAction::Ignore
    } else {
        SyncAction::Evict
    }
}

} // verus!
