use vstd::prelude::*;
use vstd::string::StringExecFns;

use tokio_util::sync::CancellationToken;

use crate::downloader::{effective_connections, filename_of_path, url_path, url_to_filename};
use crate::text::{decimal, lemma_decimal_injective, push_decimal};

verus! {

/// `tokio_util::sync::CancellationToken`, held opaquely.
#[verifier::external_type_specification]
#[verifier::external_body]
pub struct ExCancellationToken(CancellationToken);

/// Calls `<CancellationToken as Clone>::clone`.
///
/// Trusted: the clone is the same token (it shares the cloned token's inner
/// node, so cancelling either cancels both).
#[verifier::external_body]
fn clone_cancel_token(token: &CancellationToken) -> (copy: CancellationToken)
    ensures
        copy == *token,
{
    token.clone()
}

/// What the application remembers of a download it started.
pub struct DownloadHandle {
    pub cancel: CancellationToken,
    pub url: String,
    pub connections: usize,
    pub filename: String,
}

/// What pausing a download takes: the token to cancel (the one its running
/// task watches) and the filename to report.
pub struct PauseOrder {
    pub filename: String,
    pub cancel: CancellationToken,
}

/// Everything needed to start (or restart) the download task of a
/// registered download.
pub struct DownloadJob {
    pub download_id: String,
    pub url: String,
    pub connections: usize,
    pub filename: String,
    pub cancel: CancellationToken,
}

/// Registered downloads, keyed by download id, and the number that the next
/// id will carry.
pub struct AppState {
    downloads: Vec<(String, DownloadHandle)>,
    next_id: u32,
}

/// What an [`AppState`] stands for.
pub struct AppStateView {
    pub downloads: Map<Seq<char>, DownloadHandle>,
    pub next_id: u32,
}

/// The map that a list of keyed entries stands for (later entries win).
pub open spec fn entries_map(entries: Seq<(String, DownloadHandle)>) -> Map<Seq<char>, DownloadHandle>
    decreases entries.len(),
{
    if entries.len() == 0 {
        Map::empty()
    } else {
        entries_map(entries.drop_last()).insert(entries.last().0@, entries.last().1)
    }
}

/// No key occurs twice.
pub open spec fn keys_distinct(entries: Seq<(String, DownloadHandle)>) -> bool {
    forall|i: int, j: int|
        0 <= i < entries.len() && 0 <= j < entries.len() && i != j ==> #[trigger] entries[i].0@
            != #[trigger] entries[j].0@
}

proof fn lemma_entries_map_dom(entries: Seq<(String, DownloadHandle)>, k: Seq<char>)
    ensures
        entries_map(entries).dom().contains(k) <==> exists|i: int|
            0 <= i < entries.len() && #[trigger] entries[i].0@ == k,
    decreases entries.len(),
{
    if entries.len() > 0 {
        lemma_entries_map_dom(entries.drop_last(), k);
        if entries_map(entries.drop_last()).dom().contains(k) {
            let i = choose|i: int| 0 <= i < entries.drop_last().len() && #[trigger] entries.drop_last()[i].0@ == k;
            assert(entries[i].0@ == k);
        }
        if exists|i: int| 0 <= i < entries.len() && #[trigger] entries[i].0@ == k {
            let i = choose|i: int| 0 <= i < entries.len() && #[trigger] entries[i].0@ == k;
            if i < entries.len() - 1 {
                assert(entries.drop_last()[i].0@ == k);
            }
        }
    }
}

proof fn lemma_entries_map_value(entries: Seq<(String, DownloadHandle)>, i: int)
    requires
        keys_distinct(entries),
        0 <= i < entries.len(),
    ensures
        entries_map(entries).dom().contains(entries[i].0@),
        entries_map(entries)[entries[i].0@] == entries[i].1,
    decreases entries.len(),
{
    if i < entries.len() - 1 {
        assert(entries.drop_last()[i] == entries[i]);
        lemma_entries_map_value(entries.drop_last(), i);
        assert(entries[i].0@ != entries[entries.len() - 1].0@);
    }
}

proof fn lemma_entries_map_update(
    entries: Seq<(String, DownloadHandle)>,
    i: int,
    entry: (String, DownloadHandle),
)
    requires
        keys_distinct(entries),
        0 <= i < entries.len(),
        entry.0@ == entries[i].0@,
    ensures
        entries_map(entries.update(i, entry)) == entries_map(entries).insert(entry.0@, entry.1),
    decreases entries.len(),
{
    let upd = entries.update(i, entry);
    if i == entries.len() - 1 {
        assert(upd.drop_last() =~= entries.drop_last());
        assert(entries_map(upd) =~= entries_map(entries).insert(entry.0@, entry.1));
    } else {
        assert(upd.drop_last() =~= entries.drop_last().update(i, entry));
        lemma_entries_map_update(entries.drop_last(), i, entry);
        assert(entries[i].0@ != entries.last().0@);
        assert(entries_map(upd) =~= entries_map(entries).insert(entry.0@, entry.1));
    }
}

impl View for AppState {
    type V = AppStateView;

    closed spec fn view(&self) -> AppStateView {
        AppStateView { downloads: entries_map(self.downloads@), next_id: self.next_id }
    }
}

/// The id of the `n`-th download: `dl-<n>`.
pub open spec fn download_id_text(n: u32) -> Seq<char> {
    "dl-"@ + decimal(n as nat)
}

/// Downloads registered under different counter values get different ids.
pub proof fn lemma_download_ids_distinct(a: u32, b: u32)
    requires
        a != b,
    ensures
        download_id_text(a) != download_id_text(b),
{
    lemma_decimal_injective(a as nat, b as nat);
    let p = "dl-"@;
    if download_id_text(a) == download_id_text(b) {
        assert(download_id_text(a).skip(p.len() as int) =~= decimal(a as nat));
        assert(download_id_text(b).skip(p.len() as int) =~= decimal(b as nat));
    }
}

/// The message a failed lookup answers.
pub open spec fn not_found_text() -> Seq<char> {
    "Download not found"@
}

/// The message an unusable URL answers.
pub open spec fn no_filename_text() -> Seq<char> {
    "Invalid URL — could not extract a filename"@
}

/// The counter value that follows `n`: `n + 1`, wrapping to 0.
pub open spec fn next_counter(n: u32) -> u32 {
    if n == u32::MAX {
        0
    } else {
        (n + 1) as u32
    }
}

/// Every registered id is `dl-<m>` for some `m` with `1 <= m < next_id`:
/// the ids handed out so far all lie below the counter.
pub open spec fn ids_issued_below(v: AppStateView) -> bool {
    forall|k: Seq<char>|
        #[trigger] v.downloads.dom().contains(k) ==> exists|m: u32|
            1 <= m < v.next_id && k == download_id_text(m)
}

/// `after` is `before` with one more download registered under `id`: the id
/// takes the counter value, the counter moves on, and every other entry is
/// kept as it was.
pub open spec fn invoke_step(before: AppStateView, after: AppStateView, id: Seq<char>) -> bool {
    &&& id == download_id_text(before.next_id)
    &&& after.next_id == next_counter(before.next_id)
    &&& after.downloads.dom() == before.downloads.dom().insert(id)
    &&& forall|k: Seq<char>|
        k != id && #[trigger] before.downloads.dom().contains(k) ==> after.downloads[k]
            == before.downloads[k]
}

/// One registration keeps the ids below the counter, and the id it hands
/// out was not registered before.
pub proof fn lemma_invoke_step_fresh(before: AppStateView, after: AppStateView, id: Seq<char>)
    requires
        invoke_step(before, after, id),
        ids_issued_below(before),
        1 <= before.next_id < u32::MAX,
    ensures
        ids_issued_below(after),
        !before.downloads.dom().contains(id),
        after.next_id == before.next_id + 1,
{
    if before.downloads.dom().contains(id) {
        let m = choose|m: u32| 1 <= m < before.next_id && id == download_id_text(m);
        lemma_download_ids_distinct(m, before.next_id);
    }
    assert forall|k: Seq<char>| #[trigger] after.downloads.dom().contains(k) implies exists|m: u32|
        1 <= m < after.next_id && k == download_id_text(m) by {
        if k == id {
            assert(1 <= before.next_id < after.next_id && k == download_id_text(before.next_id));
        } else {
            assert(before.downloads.dom().contains(k));
            let m = choose|m: u32| 1 <= m < before.next_id && k == download_id_text(m);
            assert(1 <= m < after.next_id && k == download_id_text(m));
        }
    }
}

/// One call on the registry, as a step from one view to the next.
pub enum RegistryCall {
    /// `invoke_download` registered a download under this id.
    Invoked(Seq<char>),
    /// `invoke_download` refused the URL (the counter still moved on).
    Refused,
    /// `pause_download`, which leaves the registry as it is.
    Paused,
    /// `resume_download` gave the download under this id a new token.
    Resumed(Seq<char>),
}

/// `after` follows from `before` by `call`, as the contracts of the
/// registry's functions say.
pub open spec fn registry_step(before: AppStateView, after: AppStateView, call: RegistryCall) -> bool {
    match call {
        RegistryCall::Invoked(id) => invoke_step(before, after, id),
        RegistryCall::Refused => {
            &&& after.downloads == before.downloads
            &&& after.next_id == next_counter(before.next_id)
        },
        RegistryCall::Paused => after == before,
        RegistryCall::Resumed(id) => {
            &&& after.next_id == before.next_id
            &&& after.downloads.dom() == before.downloads.dom()
            &&& before.downloads.dom().contains(id)
            &&& after.downloads[id].url == before.downloads[id].url
            &&& after.downloads[id].connections == before.downloads[id].connections
            &&& after.downloads[id].filename == before.downloads[id].filename
            &&& forall|k: Seq<char>|
                k != id && #[trigger] before.downloads.dom().contains(k) ==> after.downloads[k]
                    == before.downloads[k]
        },
    }
}

/// The call moves the id counter on.
pub open spec fn uses_counter(call: RegistryCall) -> bool {
    call is Invoked || call is Refused
}

/// How many of `calls` move the id counter on.
pub open spec fn counter_uses(calls: Seq<RegistryCall>) -> nat
    decreases calls.len(),
{
    if calls.len() == 0 {
        0
    } else {
        counter_uses(calls.drop_last()) + if uses_counter(calls.last()) {
            1nat
        } else {
            0nat
        }
    }
}

/// Every registered id is `dl-<m>` for some `m` with `1 <= m < bound`.
pub open spec fn ids_below(v: AppStateView, bound: int) -> bool {
    forall|k: Seq<char>|
        #[trigger] v.downloads.dom().contains(k) ==> exists|m: u32|
            1 <= m < bound && k == download_id_text(m)
}

/// The same registration details (URL, connections, filename).
pub open spec fn same_details(a: DownloadHandle, b: DownloadHandle) -> bool {
    &&& a.url == b.url
    &&& a.connections == b.connections
    &&& a.filename == b.filename
}

proof fn lemma_counter_uses_prefix(calls: Seq<RegistryCall>, a: int, b: int)
    requires
        0 <= a <= b <= calls.len(),
    ensures
        counter_uses(calls.take(a)) <= counter_uses(calls.take(b)),
        a < b && uses_counter(calls[a]) ==> counter_uses(calls.take(a)) + 1 <= counter_uses(
            calls.take(b),
        ),
    decreases b - a,
{
    if a < b {
        lemma_counter_uses_prefix(calls, a, b - 1);
        assert(calls.take(b).drop_last() =~= calls.take(b - 1));
        assert(calls.take(b).last() == calls[b - 1]);
        if a == b - 1 {
            assert(calls.take(a) =~= calls.take(b - 1));
        }
    }
}

/// Any sequence of registry calls (registrations, refused URLs, pauses and
/// resumes, in any order) that moves the counter at most up to 2^32 hands
/// out pairwise distinct ids, none registered before, and each id keeps the
/// URL, connections and filename its own registration gave it: no call
/// overwrites another registration.
pub proof fn lemma_registry_calls_keep_registrations(
    vs: Seq<AppStateView>,
    calls: Seq<RegistryCall>,
)
    requires
        vs.len() == calls.len() + 1,
        ids_issued_below(vs[0]),
        1 <= vs[0].next_id,
        vs[0].next_id + counter_uses(calls) <= 0x1_0000_0000,
        forall|i: int| 0 <= i < calls.len() ==> #[trigger] registry_step(vs[i], vs[i + 1], calls[i]),
    ensures
        ids_below(vs.last(), vs[0].next_id + counter_uses(calls)),
        vs[0].next_id + counter_uses(calls) < 0x1_0000_0000 ==> vs.last().next_id == vs[0].next_id
            + counter_uses(calls),
        forall|i: int|
            0 <= i < calls.len() && #[trigger] calls[i] is Invoked ==> {
                &&& calls[i]->Invoked_0 == download_id_text(
                    (vs[0].next_id + counter_uses(calls.take(i))) as u32,
                )
                &&& vs[0].next_id + counter_uses(calls.take(i)) < 0x1_0000_0000
                &&& !vs[i].downloads.dom().contains(calls[i]->Invoked_0)
                &&& vs.last().downloads.dom().contains(calls[i]->Invoked_0)
                &&& same_details(
                    vs.last().downloads[calls[i]->Invoked_0],
                    vs[i + 1].downloads[calls[i]->Invoked_0],
                )
            },
        forall|i: int, j: int|
            0 <= i < j < calls.len() && #[trigger] calls[i] is Invoked && #[trigger] calls[j] is Invoked
                ==> calls[i]->Invoked_0 != calls[j]->Invoked_0,
    decreases calls.len(),
{
    let n = calls.len();
    let start = vs[0].next_id as int;
    if n == 0 {
        assert forall|k: Seq<char>| #[trigger] vs.last().downloads.dom().contains(k) implies exists|
            m: u32,
        | 1 <= m < start && k == download_id_text(m) by {
            assert(vs[0].downloads.dom().contains(k));
        }
    } else {
        let pvs = vs.take(n as int);
        let pcalls = calls.take(n - 1);
        assert(calls.drop_last() =~= pcalls);
        assert forall|i: int| 0 <= i < pcalls.len() implies #[trigger] registry_step(
            pvs[i],
            pvs[i + 1],
            pcalls[i],
        ) by {
            assert(registry_step(vs[i], vs[i + 1], calls[i]));
        }
        assert(pvs[0] == vs[0]);
        lemma_registry_calls_keep_registrations(pvs, pcalls);
        let last = n - 1;
        let before = vs[last];
        let after = vs[last + 1];
        let call = calls[last];
        let c = start + counter_uses(pcalls);
        assert(pvs.last() == before);
        assert(registry_step(before, after, call));
        assert(counter_uses(calls) == c - start + (if uses_counter(call) { 1int } else { 0int }));
        // The state after the last call.
        match call {
            RegistryCall::Invoked(id) => {
                assert(c < 0x1_0000_0000);
                assert(before.next_id == c);
                if before.downloads.dom().contains(id) {
                    let m = choose|m: u32| 1 <= m < c && id == download_id_text(m);
                    lemma_download_ids_distinct(m, before.next_id);
                }
                assert forall|k: Seq<char>| #[trigger] after.downloads.dom().contains(k) implies exists|
                    m: u32,
                | 1 <= m < c + 1 && k == download_id_text(m) by {
                    if k == id {
                        assert(1 <= before.next_id < c + 1 && k == download_id_text(before.next_id));
                    } else {
                        assert(before.downloads.dom().contains(k));
                        let m = choose|m: u32| 1 <= m < c && k == download_id_text(m);
                    }
                }
            },
            RegistryCall::Refused => {
                assert forall|k: Seq<char>| #[trigger] after.downloads.dom().contains(k) implies exists|
                    m: u32,
                | 1 <= m < c + 1 && k == download_id_text(m) by {
                    assert(before.downloads.dom().contains(k));
                    let m = choose|m: u32| 1 <= m < c && k == download_id_text(m);
                }
            },
            _ => {
                assert forall|k: Seq<char>| #[trigger] after.downloads.dom().contains(k) implies exists|
                    m: u32,
                | 1 <= m < c && k == download_id_text(m) by {
                    assert(before.downloads.dom().contains(k));
                }
            },
        }
        assert(calls.take(last) =~= pcalls);
        // Per-call facts.
        assert forall|i: int| 0 <= i < calls.len() && #[trigger] calls[i] is Invoked implies {
            &&& calls[i]->Invoked_0 == download_id_text((start + counter_uses(calls.take(i))) as u32)
            &&& start + counter_uses(calls.take(i)) < 0x1_0000_0000
            &&& !vs[i].downloads.dom().contains(calls[i]->Invoked_0)
            &&& vs.last().downloads.dom().contains(calls[i]->Invoked_0)
            &&& same_details(
                vs.last().downloads[calls[i]->Invoked_0],
                vs[i + 1].downloads[calls[i]->Invoked_0],
            )
        } by {
            if i < last {
                assert(pcalls[i] == calls[i]);
                assert(pcalls.take(i) =~= calls.take(i));
                assert(pvs[i] == vs[i]);
                assert(pvs[i + 1] == vs[i + 1]);
                let id = calls[i]->Invoked_0;
                assert(before.downloads.dom().contains(id));
                match call {
                    RegistryCall::Invoked(id2) => {
                        lemma_counter_uses_prefix(calls, i, last);
                        lemma_download_ids_distinct(
                            (start + counter_uses(calls.take(i))) as u32,
                            before.next_id,
                        );
                        assert(id != id2);
                    },
                    RegistryCall::Resumed(id2) => {
                        if id != id2 {
                            assert(after.downloads[id] == before.downloads[id]);
                        }
                    },
                    _ => {},
                }
            } else {
                assert(calls.take(i) =~= pcalls);
                assert(invoke_step(before, after, calls[i]->Invoked_0));
                assert(before.next_id == c);
                if before.downloads.dom().contains(calls[i]->Invoked_0) {
                    let m = choose|m: u32| 1 <= m < c && calls[i]->Invoked_0 == download_id_text(m);
                    lemma_download_ids_distinct(m, before.next_id);
                }
            }
        }
        assert forall|i: int, j: int|
            0 <= i < j < calls.len() && #[trigger] calls[i] is Invoked && #[trigger] calls[j] is Invoked
                implies calls[i]->Invoked_0 != calls[j]->Invoked_0 by {
            if j < last {
                assert(pcalls[i] == calls[i] && pcalls[j] == calls[j]);
            } else {
                assert(pcalls[i] == calls[i]);
                assert(pcalls.take(i) =~= calls.take(i));
                lemma_counter_uses_prefix(calls, i, last);
                assert(calls[j]->Invoked_0 == download_id_text(before.next_id));
                lemma_download_ids_distinct(
                    (start + counter_uses(calls.take(i))) as u32,
                    before.next_id,
                );
            }
        }
    }
}

/// Calls `CancellationToken::new`.
///
/// Trusted: the new token is none of the tokens registered in `state`. It
/// holds a newly allocated inner node, and two tokens are the same only when
/// they share their inner node (`PartialEq` compares with `Arc::ptr_eq`).
#[verifier::external_body]
fn new_cancel_token(state: &AppState) -> (token: CancellationToken)
    ensures
        forall|k: Seq<char>|
            #[trigger] state@.downloads.dom().contains(k) ==> state@.downloads[k].cancel != token,
{
    CancellationToken::new()
}

impl AppState {
    /// The registry's internal consistency: no download id occurs twice.
    #[verifier::type_invariant]
    closed spec fn ids_unique(self) -> bool {
        keys_distinct(self.downloads@)
    }

    /// No downloads yet; the first id is `dl-1`.
    pub fn new() -> (state: Self)
        ensures
            state@.downloads == Map::<Seq<char>, DownloadHandle>::empty(),
            state@.next_id == 1,
            ids_issued_below(state@),
    {
        let state = AppState { downloads: Vec::new(), next_id: 1 };
        assert(state@.downloads =~= Map::<Seq<char>, DownloadHandle>::empty());
        state
    }

    fn find(&self, download_id: &String) -> (found: Option<usize>)
        ensures
            match found {
                Some(i) => i < self.downloads@.len() && self.downloads@[i as int].0@
                    == download_id@ && self@.downloads.dom().contains(download_id@)
                    && self@.downloads[download_id@] == self.downloads@[i as int].1,
                None => !self@.downloads.dom().contains(download_id@),
            },
    {
        proof {
            use_type_invariant(self);
        }
        let mut i: usize = 0;
        while i < self.downloads.len()
            invariant
                i <= self.downloads@.len(),
                keys_distinct(self.downloads@),
                forall|j: int| 0 <= j < i ==> #[trigger] self.downloads@[j].0@ != download_id@,
            decreases self.downloads@.len() - i,
        {
            if self.downloads[i].0 == *download_id {
                proof {
                    lemma_entries_map_value(self.downloads@, i as int);
                }
                return Some(i);
            }
            i = i + 1;
        }
        proof {
            lemma_entries_map_dom(self.downloads@, download_id@);
        }
        None
    }

    /// Register `handle` under `download_id`, replacing what was there.
    fn insert(&mut self, download_id: String, handle: DownloadHandle)
        ensures
            final(self)@.next_id == old(self)@.next_id,
            final(self)@.downloads == old(self)@.downloads.insert(download_id@, handle),
    {
        proof {
            use_type_invariant(&*self);
        }
        let found = self.find(&download_id);
        let mut entries: Vec<(String, DownloadHandle)> = Vec::new();
        std::mem::swap(&mut entries, &mut self.downloads);
        let ghost before = entries@;
        match found {
            Some(i) => {
                let key = download_id.clone();
                entries.set(i, (key, handle));
                proof {
                    lemma_entries_map_update(before, i as int, (key, handle));
                    assert forall|a: int, b: int|
                        0 <= a < entries@.len() && 0 <= b < entries@.len() && a != b implies #[trigger] entries@[a].0@
                        != #[trigger] entries@[b].0@ by {
                        if a != i && b != i {
                            assert(before[a].0@ != before[b].0@);
                        } else if a == i {
                            assert(before[i as int].0@ != before[b].0@);
                        } else {
                            assert(before[a].0@ != before[i as int].0@);
                        }
                    }
                }
            },
            None => {
                proof {
                    lemma_entries_map_dom(before, download_id@);
                }
                entries.push((download_id, handle));
                proof {
                    assert(entries@.drop_last() =~= before);
                    assert forall|a: int, b: int|
                        0 <= a < entries@.len() && 0 <= b < entries@.len() && a != b implies #[trigger] entries@[a].0@
                        != #[trigger] entries@[b].0@ by {
                        if a < before.len() && b < before.len() {
                            assert(before[a].0@ != before[b].0@);
                        } else if a < before.len() {
                            assert(before[a].0@ != download_id@);
                        } else {
                            assert(before[b].0@ != download_id@);
                        }
                    }
                }
            },
        }
        self.downloads = entries;
    }
}

/// Register a new download of `url` and return what its download task
/// needs.
///
/// The id `dl-<n>` takes the current counter value and the counter moves on
/// (wrapping) whether or not the URL is usable; an unusable URL is refused
/// with the no-filename message and registers nothing. At least one
/// connection is used, and the download gets a new cancellation token, none
/// of the registered ones.
pub fn invoke_download(state: &mut AppState, url: String, connections: usize) -> (job: Result<
    DownloadJob,
    String,
>)
    ensures
        final(state)@.next_id == next_counter(old(state)@.next_id),
        final(state)@.next_id == (old(state)@.next_id + 1) % 0x1_0000_0000,
        ids_issued_below(old(state)@) && 1 <= old(state)@.next_id < u32::MAX ==> ids_issued_below(
            final(state)@,
        ),
        match job {
            Ok(job) => {
                &&& invoke_step(old(state)@, final(state)@, job.download_id@)
                &&& job.download_id@ == "dl-"@ + decimal(old(state)@.next_id as nat)
                &&& registry_step(
                    old(state)@,
                    final(state)@,
                    RegistryCall::Invoked(job.download_id@),
                )
                &&& job.url@ == url@
                &&& job.connections == (if connections == 0 { 1 } else { connections })
                &&& filename_of_path(url_path(url@)) == Some(job.filename@)
                &&& final(state)@.downloads[job.download_id@].url@ == url@
                &&& final(state)@.downloads[job.download_id@].connections == job.connections
                &&& final(state)@.downloads[job.download_id@].filename@ == job.filename@
                &&& final(state)@.downloads[job.download_id@].cancel == job.cancel
                &&& forall|k: Seq<char>|
                    #[trigger] old(state)@.downloads.dom().contains(k)
                        ==> old(state)@.downloads[k].cancel != job.cancel
            },
            Err(msg) => {
                &&& registry_step(old(state)@, final(state)@, RegistryCall::Refused)
                &&& filename_of_path(url_path(url@)) is None
                &&& msg@ == no_filename_text()
                &&& final(state)@.downloads == old(state)@.downloads
            },
        },
{
    proof {
        use_type_invariant(&*state);
    }
    let connections = effective_connections(connections);
    let n = state.next_id;
    state.next_id = n.wrapping_add(1);
    let ghost counted = state@;
    let mut download_id = String::from_str("dl-");
    push_decimal(&mut download_id, n as u64);
    let filename = match url_to_filename(url.as_str()) {
        Ok(name) => name,
        Err(_) => {
            proof {
                if ids_issued_below(old(state)@) && 1 <= n < u32::MAX {
                    assert forall|k: Seq<char>| #[trigger] state@.downloads.dom().contains(k) implies exists|m: u32|
                        1 <= m < state@.next_id && k == download_id_text(m) by {
                        assert(old(state)@.downloads.dom().contains(k));
                        let m = choose|m: u32| 1 <= m < n && k == download_id_text(m);
                        assert(1 <= m < state@.next_id && k == download_id_text(m));
                    }
                }
            }
            return Err(String::from_str("Invalid URL — could not extract a filename"));
        },
    };
    let cancel = new_cancel_token(state);
    let handle = DownloadHandle {
        cancel: clone_cancel_token(&cancel),
        url: url.clone(),
        connections,
        filename: filename.clone(),
    };
    state.insert(download_id.clone(), handle);
    proof {
        assert(state@.downloads.dom() =~= old(state)@.downloads.dom().insert(download_id@));
        if ids_issued_below(old(state)@) && 1 <= n < u32::MAX {
            lemma_invoke_step_fresh(old(state)@, state@, download_id@);
        }
    }
    Ok(DownloadJob { download_id, url, connections, filename, cancel })
}

/// Find the download `download_id` to pause: the order carries the token
/// its task runs with, which the caller cancels, and its filename.
///
/// An unknown id is answered with the not-found message.
pub fn pause_download(state: &AppState, download_id: &String) -> (paused: Result<
    PauseOrder,
    String,
>)
    ensures
        match paused {
            Ok(order) => {
                &&& state@.downloads.dom().contains(download_id@)
                &&& order.filename@ == state@.downloads[download_id@].filename@
                &&& order.cancel == state@.downloads[download_id@].cancel
            },
            Err(msg) => !state@.downloads.dom().contains(download_id@) && msg@ == not_found_text(),
        },
{
    match state.find(download_id) {
        None => Err(String::from_str("Download not found")),
        Some(i) => {
            let handle = &state.downloads[i].1;
            Ok(PauseOrder {
                filename: handle.filename.clone(),
                cancel: clone_cancel_token(&handle.cancel),
            })
        },
    }
}

/// Restart the download `download_id` with a new cancellation token, none
/// of the registered ones (so not the one a pause cancelled); returns what
/// its download task needs.
///
/// An unknown id is answered with the not-found message and changes nothing.
pub fn resume_download(state: &mut AppState, download_id: &String) -> (job: Result<
    DownloadJob,
    String,
>)
    ensures
        final(state)@.next_id == old(state)@.next_id,
        final(state)@.downloads.dom() == old(state)@.downloads.dom(),
        match job {
            Ok(job) => {
                let before = old(state)@.downloads[download_id@];
                let after = final(state)@.downloads[download_id@];
                &&& old(state)@.downloads.dom().contains(download_id@)
                &&& job.download_id@ == download_id@
                &&& job.url@ == before.url@
                &&& job.connections == before.connections
                &&& job.filename@ == before.filename@
                &&& after.url == before.url
                &&& after.connections == before.connections
                &&& after.filename == before.filename
                &&& after.cancel == job.cancel
                &&& after.cancel != before.cancel
                &&& registry_step(old(state)@, final(state)@, RegistryCall::Resumed(download_id@))
                &&& forall|k: Seq<char>|
                    #[trigger] old(state)@.downloads.dom().contains(k)
                        ==> old(state)@.downloads[k].cancel != job.cancel
                &&& forall|k: Seq<char>|
                    k != download_id@ && #[trigger] old(state)@.downloads.dom().contains(k)
                        ==> final(state)@.downloads[k] == old(state)@.downloads[k]
            },
            Err(msg) => {
                &&& !old(state)@.downloads.dom().contains(download_id@)
                &&& msg@ == not_found_text()
                &&& final(state)@.downloads == old(state)@.downloads
                &&& registry_step(old(state)@, final(state)@, RegistryCall::Paused)
            },
        },
{
    let i = match state.find(download_id) {
        None => {
            return Err(String::from_str("Download not found"));
        },
        Some(i) => i,
    };
    let url = state.downloads[i].1.url.clone();
    let connections = state.downloads[i].1.connections;
    let filename = state.downloads[i].1.filename.clone();
    let cancel = new_cancel_token(state);
    let handle = DownloadHandle {
        cancel: clone_cancel_token(&cancel),
        url: url.clone(),
        connections,
        filename: filename.clone(),
    };
    state.insert(download_id.clone(), handle);
    proof {
        assert(state@.downloads.dom() =~= old(state)@.downloads.dom());
    }
    Ok(DownloadJob { download_id: download_id.clone(), url, connections, filename, cancel })
}

} // verus!
