use vstd::prelude::*;

verus! {

/// A saved connection profile. `details` is an arbitrary JSON document that
/// the registry never interprets.
#[derive(Clone, Debug, PartialEq)]
pub struct SavedConnection {
    pub id: String,
    pub name: String,
    pub db_type: String,
    pub details: serde_json::Value,
}

/// Why a change to the registry was not made.
#[derive(Debug, PartialEq)]
pub enum StoreError {
    /// Writing the collection to its backing file failed, with the reason.
    Io(String),
    /// No saved connection has the requested id.
    NotFound,
}

/// The connection registry: the saved profiles in order, and the file that
/// mirrors them.
pub struct StorageState {
    pub connections: Vec<SavedConnection>,
    pub file_path: String,
}

/// Some profile of `s` has the id `id`.
pub open spec fn has_id(s: Seq<SavedConnection>, id: Seq<char>) -> bool {
    exists|i: int| 0 <= i < s.len() && #[trigger] s[i].id@ == id
}

/// No two profiles of `s` share an id.
pub open spec fn ids_unique(s: Seq<SavedConnection>) -> bool {
    forall|i: int, j: int| 0 <= i < j < s.len() ==> #[trigger] s[i].id@ != #[trigger] s[j].id@
}

/// The position of the profile with id `id`, where there is one.
pub open spec fn index_of_id(s: Seq<SavedConnection>, id: Seq<char>) -> int
    recommends
        has_id(s, id),
{
    choose|i: int| 0 <= i < s.len() && #[trigger] s[i].id@ == id
}

/// `s` after saving `c`: the profile with the same id is replaced in place,
/// or else `c` is appended.
pub open spec fn upsert_seq(s: Seq<SavedConnection>, c: SavedConnection) -> Seq<SavedConnection> {
    if has_id(s, c.id@) {
        s.update(index_of_id(s, c.id@), c)
    } else {
        s.push(c)
    }
}

/// `s` without the profile whose id is `id`.
pub open spec fn delete_seq(s: Seq<SavedConnection>, id: Seq<char>) -> Seq<SavedConnection> {
    s.remove(index_of_id(s, id))
}

/// The profiles of `s` in order, each id kept at its first occurrence only.
pub open spec fn keep_first(s: Seq<SavedConnection>) -> Seq<SavedConnection>
    decreases s.len(),
{
    if s.len() == 0 {
        s
    } else {
        let r = keep_first(s.drop_last());
        if has_id(r, s.last().id@) {
            r
        } else {
            r.push(s.last())
        }
    }
}

proof fn lemma_index_of_id(s: Seq<SavedConnection>, id: Seq<char>)
    requires
        has_id(s, id),
    ensures
        0 <= index_of_id(s, id) < s.len(),
        s[index_of_id(s, id)].id@ == id,
        ids_unique(s) ==> forall|j: int| 0 <= j < s.len() && #[trigger] s[j].id@ == id ==> j == index_of_id(s, id),
{
    let k = index_of_id(s, id);
    if ids_unique(s) {
        assert forall|j: int| 0 <= j < s.len() && #[trigger] s[j].id@ == id implies j == k by {
            if j < k {
                assert(s[j].id@ != s[k].id@);
            } else if k < j {
                assert(s[k].id@ != s[j].id@);
            }
        }
    }
}

proof fn lemma_has_id_push(q: Seq<SavedConnection>, c: SavedConnection)
    ensures
        forall|id: Seq<char>| #[trigger] has_id(q.push(c), id) == (has_id(q, id) || c.id@ == id),
{
    assert forall|id: Seq<char>| #[trigger] has_id(q.push(c), id) == (has_id(q, id) || c.id@ == id) by {
        assert(q.push(c)[q.len() as int] == c);
        if has_id(q, id) {
            let i = choose|i: int| 0 <= i < q.len() && #[trigger] q[i].id@ == id;
            assert(q.push(c)[i] == q[i]);
        }
        if has_id(q.push(c), id) {
            let i = choose|i: int| 0 <= i < q.len() + 1 && #[trigger] q.push(c)[i].id@ == id;
            if i < q.len() {
                assert(q.push(c)[i] == q[i]);
            }
        }
    }
}

proof fn lemma_keep_first(s: Seq<SavedConnection>)
    ensures
        ids_unique(keep_first(s)),
        forall|id: Seq<char>| has_id(keep_first(s), id) == has_id(s, id),
        ids_unique(s) ==> keep_first(s) == s,
    decreases s.len(),
{
    if s.len() > 0 {
        let p = s.drop_last();
        lemma_keep_first(p);
        let r = keep_first(p);
        let c = s.last();
        assert(s == p.push(c));
        lemma_has_id_push(p, c);
        lemma_has_id_push(r, c);
        if !has_id(r, c.id@) {
            assert forall|i: int, j: int| 0 <= i < j < r.len() + 1 implies #[trigger] r.push(c)[i].id@
                != #[trigger] r.push(c)[j].id@ by {
                if j == r.len() as int {
                    assert(r[i].id@ != c.id@);
                }
            }
        }
        if ids_unique(s) {
            assert(ids_unique(p));
            assert(r == p);
            if has_id(p, c.id@) {
                let i = choose|i: int| 0 <= i < p.len() && #[trigger] p[i].id@ == c.id@;
                assert(s[i].id@ != s[s.len() - 1].id@);
            }
            assert(p.push(c) == s);
        }
    }
}

proof fn lemma_upsert_seq(s: Seq<SavedConnection>, c: SavedConnection)
    requires
        ids_unique(s),
    ensures
        ids_unique(upsert_seq(s, c)),
        has_id(upsert_seq(s, c), c.id@),
        forall|id: Seq<char>| has_id(upsert_seq(s, c), id) == (has_id(s, id) || id == c.id@),
{
    let r = upsert_seq(s, c);
    if has_id(s, c.id@) {
        lemma_index_of_id(s, c.id@);
        let k = index_of_id(s, c.id@);
        assert(r[k].id@ == c.id@);
        assert forall|id: Seq<char>| has_id(r, id) == (has_id(s, id) || id == c.id@) by {
            if has_id(s, id) {
                let i = choose|i: int| 0 <= i < s.len() && #[trigger] s[i].id@ == id;
                if i != k {
                    assert(r[i].id@ == id);
                }
            }
            if has_id(r, id) {
                let i = choose|i: int| 0 <= i < r.len() && #[trigger] r[i].id@ == id;
                if i != k {
                    assert(s[i].id@ == id);
                }
            }
        }
    } else {
        assert(r[s.len() as int].id@ == c.id@);
        assert forall|id: Seq<char>| has_id(r, id) == (has_id(s, id) || id == c.id@) by {
            if has_id(s, id) {
                let i = choose|i: int| 0 <= i < s.len() && #[trigger] s[i].id@ == id;
                assert(r[i].id@ == id);
            }
            if has_id(r, id) {
                let i = choose|i: int| 0 <= i < r.len() && #[trigger] r[i].id@ == id;
                if i < s.len() {
                    assert(s[i].id@ == id);
                }
            }
        }
        assert forall|i: int, j: int| 0 <= i < j < r.len() implies #[trigger] r[i].id@
            != #[trigger] r[j].id@ by {
            if j == s.len() as int {
                assert(s[i].id@ != c.id@);
            }
        }
    }
}

proof fn lemma_delete_seq(s: Seq<SavedConnection>, id: Seq<char>)
    requires
        ids_unique(s),
        has_id(s, id),
    ensures
        ids_unique(delete_seq(s, id)),
        !has_id(delete_seq(s, id), id),
        delete_seq(s, id).len() == s.len() - 1,
{
    lemma_index_of_id(s, id);
    let k = index_of_id(s, id);
    let r = delete_seq(s, id);
    assert forall|i: int, j: int| 0 <= i < j < r.len() implies #[trigger] r[i].id@
        != #[trigger] r[j].id@ by {
        let a = if i < k { i } else { i + 1 };
        let b = if j < k { j } else { j + 1 };
        assert(r[i] == s[a]);
        assert(r[j] == s[b]);
    }
    if has_id(r, id) {
        let i = choose|i: int| 0 <= i < r.len() && #[trigger] r[i].id@ == id;
        let a = if i < k { i } else { i + 1 };
        assert(r[i] == s[a]);
    }
}

/// The position of the first profile of `conns` whose id is `id`.
fn find_position(conns: &Vec<SavedConnection>, id: &String) -> (r: Option<usize>)
    ensures
        r is None <==> !has_id(conns@, id@),
        r matches Some(k) ==> k < conns@.len() && conns@[k as int].id@ == id@
            && forall|j: int| 0 <= j < k ==> #[trigger] conns@[j].id@ != id@,
{
    let mut i: usize = 0;
    while i < conns.len()
        invariant
            i <= conns@.len(),
            forall|j: int| 0 <= j < i ==> #[trigger] conns@[j].id@ != id@,
        decreases conns@.len() - i,
    {
        if conns[i].id == *id {
            return Some(i);
        }
        i += 1;
    }
    None
}

/// A copy of one saved connection.
fn copy_connection(c: &SavedConnection) -> (r: SavedConnection)
    ensures
        r == *c,
{
    SavedConnection {
        id: c.id.clone(),
        name: c.name.clone(),
        db_type: c.db_type.clone(),
        details: c.details.clone(),
    }
}

/// A copy of a whole collection, in the same order.
fn copy_all(conns: &Vec<SavedConnection>) -> (r: Vec<SavedConnection>)
    ensures
        r@ == conns@,
{
    let mut r: Vec<SavedConnection> = Vec::new();
    let mut i: usize = 0;
    while i < conns.len()
        invariant
            i <= conns@.len(),
            r@ == conns@.take(i as int),
        decreases conns@.len() - i,
    {
        r.push(copy_connection(&conns[i]));
        i += 1;
        assert(r@ == conns@.take(i as int));
    }
    assert(conns@.take(conns@.len() as int) == conns@);
    r
}

/// Saves `c` into `v` in place: replaces the profile with the same id, or appends.
fn upsert_vec(v: &mut Vec<SavedConnection>, c: SavedConnection)
    requires
        ids_unique(old(v)@),
    ensures
        final(v)@ == upsert_seq(old(v)@, c),
        ids_unique(final(v)@),
{
    proof {
        lemma_upsert_seq(v@, c);
    }
    match find_position(v, &c.id) {
        Some(k) => {
            proof {
                lemma_index_of_id(v@, c.id@);
            }
            v.set(k, c);
        },
        None => {
            v.push(c);
        },
    }
}

impl StorageState {
    /// The registry is well formed: no two saved profiles share an id.
    pub open spec fn wf(&self) -> bool {
        ids_unique(self.connections@)
    }

    /// Opens the registry kept at `file_path`, given what was read from that
    /// file: `None` where it was missing, unreadable or malformed, which gives an
    /// empty registry. Where two profiles share an id, the first one is kept.
    pub fn new(file_path: String, loaded: Option<Vec<SavedConnection>>) -> (r: Self)
        ensures
            r.wf(),
            r.file_path == file_path,
            r.connections@ == (match loaded {
                Some(v) => keep_first(v@),
                None => Seq::<SavedConnection>::empty(),
            }),
    {
        let mut conns: Vec<SavedConnection> = Vec::new();
        if let Some(v) = loaded {
            let mut i: usize = 0;
            while i < v.len()
                invariant
                    i <= v@.len(),
                    conns@ == keep_first(v@.take(i as int)),
                decreases v@.len() - i,
            {
                proof {
                    lemma_keep_first(v@.take(i as int));
                    assert(v@.take(i as int + 1).drop_last() == v@.take(i as int));
                }
                let c = copy_connection(&v[i]);
                if find_position(&conns, &c.id).is_none() {
                    conns.push(c);
                }
                i += 1;
            }
            assert(v@.take(v@.len() as int) == v@);
            proof {
                lemma_keep_first(v@);
            }
        }
        StorageState { connections: conns, file_path }
    }

    /// The collection as it would stand after saving `connection`: what is to
    /// be written out before the change is committed.
    pub fn with_connection(&self, connection: &SavedConnection) -> (r: Vec<SavedConnection>)
        requires
            self.wf(),
        ensures
            r@ == upsert_seq(self.connections@, *connection),
            ids_unique(r@),
    {
        let mut v = copy_all(&self.connections);
        upsert_vec(&mut v, copy_connection(connection));
        v
    }

    /// The collection as it would stand after deleting the profile `id`, or
    /// `NotFound` where there is none: what is to be written out before the
    /// change is committed.
    pub fn without_connection(&self, id: &String) -> (r: Result<Vec<SavedConnection>, StoreError>)
        requires
            self.wf(),
        ensures
            r is Err <==> !has_id(self.connections@, id@),
            r matches Err(e) ==> e is NotFound,
            r matches Ok(v) ==> v@ == delete_seq(self.connections@, id@) && ids_unique(v@),
    {
        match find_position(&self.connections, id) {
            None => Err(StoreError::NotFound),
            Some(k) => {
                proof {
                    lemma_index_of_id(self.connections@, id@);
                    lemma_delete_seq(self.connections@, id@);
                }
                let mut v = copy_all(&self.connections);
                v.remove(k);
                Ok(v)
            },
        }
    }
}

/// Commits saving `connection`, once the collection that includes it has been
/// written out with the outcome `written`. On a failed write the registry is
/// left as it was and the failure is returned.
pub fn save_connection(
    state: &mut StorageState,
    connection: SavedConnection,
    written: Result<(), String>,
) -> (r: Result<(), StoreError>)
    requires
        old(state).wf(),
    ensures
        final(state).wf(),
        final(state).file_path == old(state).file_path,
        match written {
            Ok(_) => r is Ok && final(state).connections@ == upsert_seq(
                old(state).connections@,
                connection,
            ),
            Err(m) => r == Err::<(), StoreError>(StoreError::Io(m)) && final(state).connections@
                == old(state).connections@,
        },
{
    match written {
        Ok(_) => {
            upsert_vec(&mut state.connections, connection);
            Ok(())
        },
        Err(m) => Err(StoreError::Io(m)),
    }
}

/// A snapshot of the saved connections, in order.
pub fn get_connections(state: &StorageState) -> (r: Vec<SavedConnection>)
    ensures
        r@ == state.connections@,
{
    copy_all(&state.connections)
}

/// Commits deleting the profile `id`, once the collection without it has been
/// written out with the outcome `written`. Where no profile has that id the
/// result is `NotFound` and nothing changes; on a failed write the registry is
/// left as it was and the failure is returned.
pub fn delete_connection(
    state: &mut StorageState,
    id: String,
    written: Result<(), String>,
) -> (r: Result<(), StoreError>)
    requires
        old(state).wf(),
    ensures
        final(state).wf(),
        final(state).file_path == old(state).file_path,
        !has_id(old(state).connections@, id@) ==> r == Err::<(), StoreError>(StoreError::NotFound)
            && final(state).connections@ == old(state).connections@,
        has_id(old(state).connections@, id@) ==> match written {
            Ok(_) => r is Ok && final(state).connections@ == delete_seq(
                old(state).connections@,
                id@,
            ),
            Err(m) => r == Err::<(), StoreError>(StoreError::Io(m)) && final(state).connections@
                == old(state).connections@,
        },
{
    match find_position(&state.connections, &id) {
        None => Err(StoreError::NotFound),
        Some(k) => match written {
            Ok(_) => {
                proof {
                    lemma_index_of_id(state.connections@, id@);
                    lemma_delete_seq(state.connections@, id@);
                }
                state.connections.remove(k);
                Ok(())
            },
            Err(m) => Err(StoreError::Io(m)),
        },
    }
}

/// Where `p` stands in `s` after it was saved: the position of the profile with
/// its id, or the end.
pub open spec fn upsert_position(s: Seq<SavedConnection>, p: SavedConnection) -> int {
    if has_id(s, p.id@) {
        index_of_id(s, p.id@)
    } else {
        s.len() as int
    }
}

proof fn lemma_upsert_position(s: Seq<SavedConnection>, p: SavedConnection)
    requires
        ids_unique(s),
    ensures
        0 <= upsert_position(s, p) < upsert_seq(s, p).len(),
        upsert_seq(s, p)[upsert_position(s, p)] == p,
        forall|j: int|
            0 <= j < upsert_seq(s, p).len() && #[trigger] upsert_seq(s, p)[j].id@ == p.id@ ==> j
                == upsert_position(s, p),
{
    lemma_upsert_seq(s, p);
    if has_id(s, p.id@) {
        lemma_index_of_id(s, p.id@);
    }
    let r = upsert_seq(s, p);
    let i = upsert_position(s, p);
    assert forall|j: int| 0 <= j < r.len() && #[trigger] r[j].id@ == p.id@ implies j == i by {
        if j < i {
            assert(r[j].id@ != r[i].id@);
        } else if i < j {
            assert(r[i].id@ != r[j].id@);
        }
    }
}

/// Saving a profile leaves exactly one profile equal to it in the collection.
pub proof fn upsert_then_list_holds_it_once(s: Seq<SavedConnection>, p: SavedConnection)
    requires
        ids_unique(s),
    ensures
        exists|i: int|
            0 <= i < upsert_seq(s, p).len() && upsert_seq(s, p)[i] == p && forall|j: int|
                0 <= j < upsert_seq(s, p).len() && j != i ==> #[trigger] upsert_seq(s, p)[j] != p,
{
    lemma_upsert_position(s, p);
    let i = upsert_position(s, p);
    let r = upsert_seq(s, p);
    assert forall|j: int| 0 <= j < r.len() && j != i implies #[trigger] r[j] != p by {
        if r[j] == p {
            assert(r[j].id@ == p.id@);
        }
    }
}

/// Reopening a registry from a collection that it saved gives back that same
/// collection, in the same order.
pub proof fn reopen_reproduces_collection(state: StorageState)
    requires
        state.wf(),
    ensures
        keep_first(state.connections@) == state.connections@,
{
    lemma_keep_first(state.connections@);
}

/// Saving the same profile twice leaves the collection as saving it once.
pub proof fn upsert_is_idempotent(s: Seq<SavedConnection>, p: SavedConnection)
    requires
        ids_unique(s),
    ensures
        upsert_seq(upsert_seq(s, p), p) == upsert_seq(s, p),
{
    lemma_upsert_position(s, p);
    lemma_upsert_seq(s, p);
    let r = upsert_seq(s, p);
    lemma_index_of_id(r, p.id@);
    assert(index_of_id(r, p.id@) == upsert_position(s, p));
    assert(r.update(upsert_position(s, p), p) =~= r);
}

/// Saving a profile with the id of one already saved replaces it where it
/// stands: the length is kept and only that position changes.
pub proof fn upsert_updates_in_place(s: Seq<SavedConnection>, first: SavedConnection, second: SavedConnection)
    requires
        ids_unique(s),
        second.id@ == first.id@,
    ensures
        upsert_seq(s, first)[upsert_position(s, first)] == first,
        upsert_seq(upsert_seq(s, first), second) == upsert_seq(s, first).update(upsert_position(s, first), second),
{
    lemma_upsert_position(s, first);
    lemma_upsert_seq(s, first);
    let r = upsert_seq(s, first);
    lemma_index_of_id(r, second.id@);
}

} // verus!
