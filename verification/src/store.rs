//! Named simulation saves kept in a book, newest first.

use vstd::prelude::*;
use crate::stamp::{is_stamp_of, now_iso};
use crate::text::{decimal, push_decimal, trim, trimmed};

verus! {

/// Why a save operation failed.
#[derive(Debug)]
pub enum StoreError {
    Io(String),
    Db(String),
    Codec(String),
}

impl StoreError {
    /// The text carried by the error.
    pub open spec fn text(&self) -> Seq<char> {
        match self {
            StoreError::Io(s) => s@,
            StoreError::Db(s) => s@,
            StoreError::Codec(s) => s@,
        }
    }

    /// The error as a message (what `Display` prints).
    pub fn message(&self) -> (r: String)
        ensures
            r@ == self.text(),
    {
        match self {
            StoreError::Io(s) => s.clone(),
            StoreError::Db(s) => s.clone(),
            StoreError::Codec(s) => s.clone(),
        }
    }
}

/// Message for a save name that is empty once trimmed.
pub open spec fn empty_name_text() -> Seq<char> {
    "název nesmí být prázdný"@
}

/// Message for an id that no save carries.
pub open spec fn not_found_text() -> Seq<char> {
    "uložení nenalezeno"@
}

/// Message for a rename onto a name that another save holds.
pub open spec fn name_taken_text() -> Seq<char> {
    "název už existuje"@
}

/// Snapshot format version that loads accept.
pub const SNAPSHOT_VERSION: u32 = 2;

/// Message for a snapshot of another version.
pub open spec fn bad_version_text(version: u32) -> Seq<char> {
    "nepodporovaná verze snapshotu "@ + decimal(version as nat)
}

/// Accept a snapshot only in the current format version.
pub fn check_snapshot_version(version: u32) -> (r: Result<(), StoreError>)
    ensures
        version == SNAPSHOT_VERSION <==> r is Ok,
        r matches Err(e) ==> e is Codec && e.text() == bad_version_text(version),
{
    if version != SNAPSHOT_VERSION {
        let mut msg = String::from_str("nepodporovaná verze snapshotu ");
        push_decimal(&mut msg, version as u64);
        return Err(StoreError::Codec(msg));
    }
    Ok(())
}

/// What a listing shows of one save.
#[derive(Clone, Debug)]
pub struct SaveMeta {
    pub id: i64,
    pub name: String,
    pub created_at: String,
    pub updated_at: String,
    /// Simulation time, as the bits of an `f32`.
    pub sim_time_bits: u32,
    pub population: i64,
    pub max_generation: i64,
}

/// One stored save: its listing data and the encoded world snapshot.
#[derive(Clone, Debug)]
pub struct SaveRecord {
    pub id: i64,
    pub name: String,
    pub created_at: String,
    pub updated_at: String,
    /// Simulation time, as the bits of an `f32`.
    pub sim_time_bits: u32,
    pub population: i64,
    pub max_generation: i64,
    pub payload: Vec<u8>,
}

/// A save as plain values.
pub struct SaveView {
    pub id: i64,
    pub name: Seq<char>,
    pub created_at: Seq<char>,
    pub updated_at: Seq<char>,
    pub sim_time_bits: u32,
    pub population: i64,
    pub max_generation: i64,
    pub payload: Seq<u8>,
}

impl View for SaveRecord {
    type V = SaveView;

    open spec fn view(&self) -> SaveView {
        SaveView {
            id: self.id,
            name: self.name@,
            created_at: self.created_at@,
            updated_at: self.updated_at@,
            sim_time_bits: self.sim_time_bits,
            population: self.population,
            max_generation: self.max_generation,
            payload: self.payload@,
        }
    }
}

/// The listing of a save: everything but the payload.
pub open spec fn meta_matches(m: SaveMeta, r: SaveView) -> bool {
    &&& m.id == r.id
    &&& m.name@ == r.name
    &&& m.created_at@ == r.created_at
    &&& m.updated_at@ == r.updated_at
    &&& m.sim_time_bits == r.sim_time_bits
    &&& m.population == r.population
    &&& m.max_generation == r.max_generation
}

/// Some stamp `YYYY-MM-DD HH:MM:SS` of a moment after the Unix epoch.
pub open spec fn is_some_stamp(text: Seq<char>) -> bool {
    exists|secs: u64| is_stamp_of(secs as int, text)
}

/// Some save carries id `id`.
pub open spec fn has_id(rows: Seq<SaveView>, id: i64) -> bool {
    exists|j: int| 0 <= j < rows.len() && #[trigger] rows[j].id == id
}

/// Some save is named `name`.
pub open spec fn has_name(rows: Seq<SaveView>, name: Seq<char>) -> bool {
    exists|j: int| 0 <= j < rows.len() && #[trigger] rows[j].name == name
}

/// The payload of the save with id `id`.
pub open spec fn payload_of(rows: Seq<SaveView>, id: i64) -> Option<Seq<u8>> {
    if has_id(rows, id) {
        Some(rows[choose|j: int| 0 <= j < rows.len() && #[trigger] rows[j].id == id].payload)
    } else {
        None
    }
}

/// Ids and names are unique, and every id lies below `next_id`.
pub open spec fn book_ok(rows: Seq<SaveView>, next_id: i64) -> bool {
    &&& forall|j: int| 0 <= j < rows.len() ==> #[trigger] rows[j].id < next_id
    &&& forall|a: int, b: int| 0 <= a < b < rows.len() ==> #[trigger] rows[a].id != #[trigger] rows[b].id
    &&& forall|a: int, b: int| 0 <= a < b < rows.len() ==> #[trigger] rows[a].name != #[trigger] rows[b].name
}

/// A book of named saves held in memory, newest first, each with a unique id
/// and a unique name.
pub struct Db {
    next_id: i64,
    rows: Vec<SaveRecord>,
}

impl Db {
    /// The saves, in stored order.
    pub closed spec fn saves(&self) -> Seq<SaveView> {
        Seq::new(self.rows.len() as nat, |k: int| self.rows[k]@)
    }

    /// The id the next new save receives.
    pub closed spec fn next_id(&self) -> i64 {
        self.next_id
    }

    /// Ids and names are unique, and every id lies below `next_id`.
    pub open spec fn wf(&self) -> bool {
        book_ok(self.saves(), self.next_id())
    }

    /// A book with no saves.
    pub fn empty() -> (db: Db)
        ensures
            db.wf(),
            db.saves().len() == 0,
            db.next_id() == 1,
    {
        let db = Db { next_id: 1, rows: Vec::new() };
        assert(db.saves() =~= Seq::empty());
        db
    }

    /// Whether one more new save can receive an id.
    pub fn has_room(&self) -> (r: bool)
        ensures
            r == (self.next_id() < i64::MAX),
    {
        self.next_id < i64::MAX
    }
}

/// The book after a save under an existing name `j`: that save takes the new
/// time stamp, listing data and payload; it keeps its id, name and creation stamp.
pub open spec fn refreshed(row: SaveView, stamp: Seq<char>, bits: u32, pop: i64, gen: i64, payload: Seq<u8>) -> SaveView {
    SaveView {
        id: row.id,
        name: row.name,
        created_at: row.created_at,
        updated_at: stamp,
        sim_time_bits: bits,
        population: pop,
        max_generation: gen,
        payload: payload,
    }
}

/// The new save that a first save under `name` creates.
pub open spec fn fresh_save(id: i64, name: Seq<char>, stamp: Seq<char>, bits: u32, pop: i64, gen: i64, payload: Seq<u8>) -> SaveView {
    SaveView {
        id,
        name,
        created_at: stamp,
        updated_at: stamp,
        sim_time_bits: bits,
        population: pop,
        max_generation: gen,
        payload,
    }
}

/// The outcome of saving `payload` under `name` into the book `(rows, next)`,
/// giving `(rows2, next2)` and result `r`: an empty trimmed name is refused;
/// an existing trimmed name is overwritten in place; a new name is put first
/// under a fresh id. Stamps are the time of the save.
pub open spec fn save_outcome(
    rows: Seq<SaveView>,
    next: i64,
    rows2: Seq<SaveView>,
    next2: i64,
    name: Seq<char>,
    payload: Seq<u8>,
    bits: u32,
    pop: i64,
    gen: i64,
    r: Result<i64, StoreError>,
) -> bool {
    let t = trimmed(name);
    if t.len() == 0 {
        &&& r matches Err(e) && e is Io && e.text() == empty_name_text()
        &&& rows2 == rows
        &&& next2 == next
    } else if has_name(rows, t) {
        let j = choose|j: int| 0 <= j < rows.len() && #[trigger] rows[j].name == t;
        &&& r == Ok::<i64, StoreError>(rows[j].id)
        &&& next2 == next
        &&& exists|stamp: Seq<char>|
            is_some_stamp(stamp) && rows2 == rows.update(j, refreshed(rows[j], stamp, bits, pop, gen, payload))
    } else {
        &&& r == Ok::<i64, StoreError>(next)
        &&& next2 == next + 1
        &&& exists|stamp: Seq<char>|
            is_some_stamp(stamp) && rows2 == seq![fresh_save(next, t, stamp, bits, pop, gen, payload)] + rows
    }
}

/// Index of the save named `name`, if any.
fn find_name(db: &Db, name: &String) -> (r: Option<usize>)
    ensures
        match r {
            Some(j) => j < db.saves().len() && db.saves()[j as int].name == name@,
            None => !has_name(db.saves(), name@),
        },
{
    let n = db.rows.len();
    for k in 0..n
        invariant
            n == db.rows.len(),
            forall|q: int| 0 <= q < k ==> db.saves()[q].name != name@,
    {
        if db.rows[k].name == *name {
            return Some(k);
        }
    }
    None
}

/// Index of the save with id `id`, if any.
fn find_id(db: &Db, id: i64) -> (r: Option<usize>)
    ensures
        match r {
            Some(j) => j < db.saves().len() && db.saves()[j as int].id == id,
            None => !has_id(db.saves(), id),
        },
{
    let n = db.rows.len();
    for k in 0..n
        invariant
            n == db.rows.len(),
            forall|q: int| 0 <= q < k ==> db.saves()[q].id != id,
    {
        if db.rows[k].id == id {
            return Some(k);
        }
    }
    None
}

/// Insert or replace a save by name (trimmed). Returns the save's id.
pub fn save_simulation(
    db: &mut Db,
    name: &str,
    payload: Vec<u8>,
    sim_time_bits: u32,
    population: i64,
    max_generation: i64,
) -> (r: Result<i64, StoreError>)
    requires
        old(db).wf(),
        old(db).next_id() < i64::MAX,
    ensures
        final(db).wf(),
        save_outcome(
            old(db).saves(),
            old(db).next_id(),
            final(db).saves(),
            final(db).next_id(),
            name@,
            payload@,
            sim_time_bits,
            population,
            max_generation,
            r,
        ),
{
    let name = trim(name);
    if name.as_str().unicode_len() == 0 {
        let msg = String::from_str("název nesmí být prázdný");
        return Err(StoreError::Io(msg));
    }
    let stamp = now_iso();
    let ghost st = stamp@;
    match find_name(db, &name) {
        Some(j) => {
            let id = db.rows[j].id;
            let ghost rows = db.saves();
            let rec = SaveRecord {
                id,
                name: db.rows[j].name.clone(),
                created_at: db.rows[j].created_at.clone(),
                updated_at: stamp,
                sim_time_bits,
                population,
                max_generation,
                payload,
            };
            db.rows.set(j, rec);
            proof {
                let new_row = refreshed(rows[j as int], st, sim_time_bits, population, max_generation, payload@);
                assert(db.saves() =~= rows.update(j as int, new_row));
                let jj = choose|q: int| 0 <= q < rows.len() && #[trigger] rows[q].name == name@;
                if jj != j {
                    if jj < j {
                        assert(rows[jj].name != rows[j as int].name);
                    } else {
                        assert(rows[j as int].name != rows[jj].name);
                    }
                }
                assert(is_some_stamp(st));
                let rows2 = db.saves();
                assert forall|a: int, b: int| 0 <= a < b < rows2.len() implies #[trigger] rows2[a].id != #[trigger] rows2[b].id by {
                    assert(rows2[a].id == rows[a].id && rows2[b].id == rows[b].id);
                }
                assert forall|a: int, b: int| 0 <= a < b < rows2.len() implies #[trigger] rows2[a].name != #[trigger] rows2[b].name by {
                    assert(rows2[a].name == rows[a].name && rows2[b].name == rows[b].name);
                }
                assert forall|a: int| 0 <= a < rows2.len() implies #[trigger] rows2[a].id < db.next_id by {
                    assert(rows2[a].id == rows[a].id);
                }
            }
            Ok(id)
        },
        None => {
            let id = db.next_id;
            let ghost rows = db.saves();
            let ghost nm = name@;
            let rec = SaveRecord {
                id,
                name: name,
                created_at: stamp.clone(),
                updated_at: stamp,
                sim_time_bits,
                population,
                max_generation,
                payload,
            };
            db.next_id = id + 1;
            db.rows.insert(0, rec);
            proof {
                let new_row = fresh_save(id, nm, st, sim_time_bits, population, max_generation, payload@);
                assert(db.saves() =~= seq![new_row] + rows);
                assert(is_some_stamp(st));
                let rows2 = db.saves();
                assert forall|a: int| 0 <= a < rows2.len() implies #[trigger] rows2[a].id < db.next_id by {
                    if a > 0 {
                        assert(rows2[a] == rows[a - 1]);
                    }
                }
                assert forall|a: int, b: int| 0 <= a < b < rows2.len() implies #[trigger] rows2[a].id != #[trigger] rows2[b].id by {
                    assert(rows2[b] == rows[b - 1]);
                    if a > 0 {
                        assert(rows2[a] == rows[a - 1]);
                    }
                }
                assert forall|a: int, b: int| 0 <= a < b < rows2.len() implies #[trigger] rows2[a].name != #[trigger] rows2[b].name by {
                    assert(rows2[b] == rows[b - 1]);
                    if a > 0 {
                        assert(rows2[a] == rows[a - 1]);
                    } else {
                        assert(rows[b - 1].name != nm);
                    }
                }
            }
            Ok(id)
        },
    }
}


/// The outcome of loading save `id`: its payload, or a not-found error.
pub open spec fn load_outcome(rows: Seq<SaveView>, id: i64, r: Result<Vec<u8>, StoreError>) -> bool {
    if has_id(rows, id) {
        r matches Ok(p) && Some(p@) == payload_of(rows, id)
    } else {
        r matches Err(e) && e is Db && e.text() == not_found_text()
    }
}

/// Load the payload of the save with id `id`.
pub fn load_simulation(db: &Db, id: i64) -> (r: Result<Vec<u8>, StoreError>)
    requires
        db.wf(),
    ensures
        load_outcome(db.saves(), id, r),
{
    match find_id(db, id) {
        Some(j) => {
            proof {
                let rows = db.saves();
                let jj = choose|q: int| 0 <= q < rows.len() && #[trigger] rows[q].id == id;
                if jj != j {
                    if jj < j {
                        assert(rows[jj].id != rows[j as int].id);
                    } else {
                        assert(rows[j as int].id != rows[jj].id);
                    }
                }
            }
            let p = db.rows[j].payload.clone();
            proof {
                assert(p@ =~= db.rows[j as int].payload@);
            }
            Ok(p)
        },
        None => Err(StoreError::Db(String::from_str("uložení nenalezeno"))),
    }
}

/// The outcome of deleting save `id`: it leaves the book, or the book stays as it was.
pub open spec fn delete_outcome(rows: Seq<SaveView>, rows2: Seq<SaveView>, id: i64, r: Result<(), StoreError>) -> bool {
    if has_id(rows, id) {
        r is Ok && rows2 == rows.remove(choose|j: int| 0 <= j < rows.len() && #[trigger] rows[j].id == id)
    } else {
        r matches Err(e) && e is Db && e.text() == not_found_text() && rows2 == rows
    }
}

/// Remove the save with id `id`.
pub fn delete_save(db: &mut Db, id: i64) -> (r: Result<(), StoreError>)
    requires
        old(db).wf(),
    ensures
        final(db).wf(),
        final(db).next_id() == old(db).next_id(),
        delete_outcome(old(db).saves(), final(db).saves(), id, r),
{
    match find_id(db, id) {
        Some(j) => {
            let ghost rows = db.saves();
            proof {
                let jj = choose|q: int| 0 <= q < rows.len() && #[trigger] rows[q].id == id;
                if jj != j {
                    if jj < j {
                        assert(rows[jj].id != rows[j as int].id);
                    } else {
                        assert(rows[j as int].id != rows[jj].id);
                    }
                }
            }
            db.rows.remove(j);
            proof {
                let rows2 = db.saves();
                assert(rows2 =~= rows.remove(j as int));
                assert forall|a: int| 0 <= a < rows2.len() implies #[trigger] rows2[a].id < db.next_id by {
                    if a >= j {
                        assert(rows2[a] == rows[a + 1]);
                    }
                }
                assert forall|a: int, b: int| 0 <= a < b < rows2.len() implies #[trigger] rows2[a].id != #[trigger] rows2[b].id by {
                    let a1 = if a >= j { a + 1 } else { a };
                    let b1 = if b >= j { b + 1 } else { b };
                    assert(rows2[a] == rows[a1] && rows2[b] == rows[b1]);
                }
                assert forall|a: int, b: int| 0 <= a < b < rows2.len() implies #[trigger] rows2[a].name != #[trigger] rows2[b].name by {
                    let a1 = if a >= j { a + 1 } else { a };
                    let b1 = if b >= j { b + 1 } else { b };
                    assert(rows2[a] == rows[a1] && rows2[b] == rows[b1]);
                }
            }
            Ok(())
        },
        None => Err(StoreError::Db(String::from_str("uložení nenalezeno"))),
    }
}

/// Some save other than `id` is named `name`.
pub open spec fn name_held_by_other(rows: Seq<SaveView>, id: i64, name: Seq<char>) -> bool {
    exists|j: int| 0 <= j < rows.len() && #[trigger] rows[j].name == name && rows[j].id != id
}

/// A save renamed to `name` at `stamp`.
pub open spec fn renamed(row: SaveView, name: Seq<char>, stamp: Seq<char>) -> SaveView {
    SaveView { name, updated_at: stamp, ..row }
}

/// The outcome of renaming save `id` to `name` (trimmed).
pub open spec fn rename_outcome(
    rows: Seq<SaveView>,
    rows2: Seq<SaveView>,
    id: i64,
    name: Seq<char>,
    r: Result<(), StoreError>,
) -> bool {
    let t = trimmed(name);
    if t.len() == 0 {
        r matches Err(e) && e is Io && e.text() == empty_name_text() && rows2 == rows
    } else if name_held_by_other(rows, id, t) {
        r matches Err(e) && e is Db && e.text() == name_taken_text() && rows2 == rows
    } else if has_id(rows, id) {
        let j = choose|j: int| 0 <= j < rows.len() && #[trigger] rows[j].id == id;
        &&& r is Ok
        &&& exists|stamp: Seq<char>| is_some_stamp(stamp) && rows2 == rows.update(j, renamed(rows[j], t, stamp))
    } else {
        r matches Err(e) && e is Db && e.text() == not_found_text() && rows2 == rows
    }
}

/// Rename the save with id `id` to `name` (trimmed).
pub fn rename_save(db: &mut Db, id: i64, name: &str) -> (r: Result<(), StoreError>)
    requires
        old(db).wf(),
    ensures
        final(db).wf(),
        final(db).next_id() == old(db).next_id(),
        rename_outcome(old(db).saves(), final(db).saves(), id, name@, r),
{
    let t = trim(name);
    if t.as_str().unicode_len() == 0 {
        return Err(StoreError::Io(String::from_str("název nesmí být prázdný")));
    }
    let ghost rows = db.saves();
    let n = db.rows.len();
    for k in 0..n
        invariant
            n == db.rows.len(),
            rows == db.saves(),
            db.wf(),
            t@ == trimmed(name@),
            t@.len() > 0,
            forall|q: int| 0 <= q < k ==> !(#[trigger] rows[q].name == t@ && rows[q].id != id),
    {
        if db.rows[k].id != id && db.rows[k].name == t {
            assert(rows[k as int].name == t@ && rows[k as int].id != id);
            return Err(StoreError::Db(String::from_str("název už existuje")));
        }
    }
    match find_id(db, id) {
        Some(j) => {
            let stamp = now_iso();
            let ghost st = stamp@;
            let ghost nm = t@;
            proof {
                let jj = choose|q: int| 0 <= q < rows.len() && #[trigger] rows[q].id == id;
                if jj != j {
                    if jj < j {
                        assert(rows[jj].id != rows[j as int].id);
                    } else {
                        assert(rows[j as int].id != rows[jj].id);
                    }
                }
            }
            let rec = SaveRecord {
                id,
                name: t,
                created_at: db.rows[j].created_at.clone(),
                updated_at: stamp,
                sim_time_bits: db.rows[j].sim_time_bits,
                population: db.rows[j].population,
                max_generation: db.rows[j].max_generation,
                payload: db.rows[j].payload.clone(),
            };
            proof {
                assert(rec.payload@ =~= rows[j as int].payload);
            }
            db.rows.set(j, rec);
            proof {
                let rows2 = db.saves();
                assert(rows2 =~= rows.update(j as int, renamed(rows[j as int], nm, st)));
                assert(is_some_stamp(st));
                assert forall|a: int| 0 <= a < rows2.len() implies #[trigger] rows2[a].id < db.next_id by {
                    assert(rows2[a].id == rows[a].id);
                }
                assert forall|a: int, b: int| 0 <= a < b < rows2.len() implies #[trigger] rows2[a].id != #[trigger] rows2[b].id by {
                    assert(rows2[a].id == rows[a].id && rows2[b].id == rows[b].id);
                }
                assert forall|a: int, b: int| 0 <= a < b < rows2.len() implies #[trigger] rows2[a].name != #[trigger] rows2[b].name by {
                    if a == j {
                        assert(rows[b].id != id);
                        assert(!(rows[b].name == nm && rows[b].id != id));
                    } else if b == j {
                        assert(rows[a].id != id);
                        assert(!(rows[a].name == nm && rows[a].id != id));
                    } else {
                        assert(rows2[a] == rows[a] && rows2[b] == rows[b]);
                    }
                }
            }
            Ok(())
        },
        None => Err(StoreError::Db(String::from_str("uložení nenalezeno"))),
    }
}


/// Lexicographic order of texts by character (how `String`s compare).
pub open spec fn text_less(a: Seq<char>, b: Seq<char>) -> bool
    decreases a.len(),
{
    if a.len() == 0 {
        b.len() > 0
    } else if b.len() == 0 {
        false
    } else if a[0] != b[0] {
        a[0] < b[0]
    } else {
        text_less(a.drop_first(), b.drop_first())
    }
}

proof fn lemma_text_less_irreflexive(a: Seq<char>)
    ensures
        !text_less(a, a),
    decreases a.len(),
{
    if a.len() > 0 {
        lemma_text_less_irreflexive(a.drop_first());
    }
}

proof fn lemma_text_less_asymmetric(a: Seq<char>, b: Seq<char>)
    ensures
        text_less(a, b) ==> !text_less(b, a),
    decreases a.len(),
{
    if a.len() > 0 && b.len() > 0 {
        lemma_text_less_asymmetric(a.drop_first(), b.drop_first());
    }
}

proof fn lemma_text_less_total(a: Seq<char>, b: Seq<char>)
    ensures
        a != b ==> text_less(a, b) || text_less(b, a),
    decreases a.len(),
{
    if a.len() > 0 && b.len() > 0 && a[0] == b[0] {
        lemma_text_less_total(a.drop_first(), b.drop_first());
        if a.drop_first() == b.drop_first() {
            assert(a =~= seq![a[0]] + a.drop_first());
            assert(b =~= seq![b[0]] + b.drop_first());
        }
    }
    if a.len() == 0 && b.len() == 0 {
        assert(a =~= b);
    }
}

proof fn lemma_text_less_transitive(a: Seq<char>, b: Seq<char>, c: Seq<char>)
    ensures
        text_less(a, b) && text_less(b, c) ==> text_less(a, c),
    decreases a.len(),
{
    if a.len() > 0 && b.len() > 0 && c.len() > 0 {
        lemma_text_less_transitive(a.drop_first(), b.drop_first(), c.drop_first());
    }
}

proof fn lemma_text_less_order(a: Seq<char>, b: Seq<char>, c: Seq<char>)
    ensures
        !text_less(a, a),
        text_less(a, b) ==> !text_less(b, a),
        a != b ==> text_less(a, b) || text_less(b, a),
        text_less(a, b) && text_less(b, c) ==> text_less(a, c),
{
    lemma_text_less_irreflexive(a);
    lemma_text_less_asymmetric(a, b);
    lemma_text_less_total(a, b);
    lemma_text_less_transitive(a, b, c);
}

proof fn lemma_text_less_skip(a: Seq<char>, b: Seq<char>, i: int)
    requires
        0 <= i <= a.len(),
        i <= b.len(),
        forall|k: int| 0 <= k < i ==> a[k] == b[k],
    ensures
        text_less(a, b) == text_less(a.skip(i), b.skip(i)),
    decreases i,
{
    if i > 0 {
        assert(a.drop_first().skip(i - 1) =~= a.skip(i));
        assert(b.drop_first().skip(i - 1) =~= b.skip(i));
        lemma_text_less_skip(a.drop_first(), b.drop_first(), i - 1);
    } else {
        assert(a.skip(0) =~= a);
        assert(b.skip(0) =~= b);
    }
}

/// Whether text `a` sorts before text `b`.
fn less_text(a: &String, b: &String) -> (r: bool)
    ensures
        r == text_less(a@, b@),
{
    let sa = a.as_str();
    let sb = b.as_str();
    let la = sa.unicode_len();
    let lb = sb.unicode_len();
    let mut i: usize = 0;
    while i < la && i < lb && sa.get_char(i) == sb.get_char(i)
        invariant
            la == a@.len(),
            lb == b@.len(),
            sa@ == a@,
            sb@ == b@,
            i <= la,
            i <= lb,
            forall|k: int| 0 <= k < i ==> a@[k] == b@[k],
        decreases la - i,
    {
        i = i + 1;
    }
    proof {
        lemma_text_less_skip(a@, b@, i as int);
    }
    if i == la {
        i < lb
    } else if i == lb {
        false
    } else {
        sa.get_char(i) < sb.get_char(i)
    }
}

/// Listing order: the more recently updated save first; on equal stamps the higher id first.
pub open spec fn listed_before(a_updated: Seq<char>, a_id: i64, b_updated: Seq<char>, b_id: i64) -> bool {
    text_less(b_updated, a_updated) || (a_updated == b_updated && a_id > b_id)
}

pub open spec fn meta_before(a: SaveMeta, b: SaveMeta) -> bool {
    listed_before(a.updated_at@, a.id, b.updated_at@, b.id)
}

/// Entry `q` of `v` lists one of the first `k` saves of `rows`.
pub open spec fn lists_one_of(v: Seq<SaveMeta>, rows: Seq<SaveView>, k: int, q: int) -> bool {
    exists|j: int| 0 <= j < k && meta_matches(v[q], #[trigger] rows[j])
}

/// Save `j` of `rows` is listed somewhere in `v`.
pub open spec fn is_listed(v: Seq<SaveMeta>, rows: Seq<SaveView>, j: int) -> bool {
    exists|q: int| 0 <= q < v.len() && meta_matches(#[trigger] v[q], rows[j])
}

/// `v` lists each save of `rows` once, in listing order.
pub open spec fn is_listing(v: Seq<SaveMeta>, rows: Seq<SaveView>) -> bool {
    &&& v.len() == rows.len()
    &&& forall|q: int| 0 <= q < v.len() ==> #[trigger] lists_one_of(v, rows, rows.len() as int, q)
    &&& forall|j: int| 0 <= j < rows.len() ==> #[trigger] is_listed(v, rows, j)
    &&& forall|k: int, l: int| 0 <= k < l < v.len() ==> meta_before(#[trigger] v[k], #[trigger] v[l])
}

proof fn lemma_meta_order(a: SaveMeta, b: SaveMeta, c: SaveMeta)
    ensures
        meta_before(a, b) && meta_before(b, c) ==> meta_before(a, c),
        a.id != b.id ==> meta_before(a, b) || meta_before(b, a),
{
    lemma_text_less_order(a.updated_at@, b.updated_at@, c.updated_at@);
    lemma_text_less_order(c.updated_at@, b.updated_at@, a.updated_at@);
    lemma_text_less_order(b.updated_at@, a.updated_at@, a.updated_at@);
}

fn meta_of(r: &SaveRecord) -> (m: SaveMeta)
    ensures
        meta_matches(m, r@),
{
    SaveMeta {
        id: r.id,
        name: r.name.clone(),
        created_at: r.created_at.clone(),
        updated_at: r.updated_at.clone(),
        sim_time_bits: r.sim_time_bits,
        population: r.population,
        max_generation: r.max_generation,
    }
}

pub open spec fn metas_sorted(v: Seq<SaveMeta>) -> bool {
    forall|a: int, b: int| 0 <= a < b < v.len() ==> meta_before(#[trigger] v[a], #[trigger] v[b])
}

/// Put `m` into the sorted listing `out` at its place.
fn insert_sorted(out: &mut Vec<SaveMeta>, m: SaveMeta)
    requires
        metas_sorted(old(out)@),
        forall|q: int| 0 <= q < old(out).len() ==> #[trigger] old(out)@[q].id != m.id,
    ensures
        metas_sorted(final(out)@),
        exists|p: int| 0 <= p <= old(out).len() && final(out)@ == old(out)@.insert(p, m),
{
    let mut p: usize = 0;
    while p < out.len() && (less_text(&m.updated_at, &out[p].updated_at) || (m.updated_at == out[p].updated_at && out[p].id > m.id))
        invariant
            p <= out.len(),
            forall|q: int| 0 <= q < p ==> meta_before(#[trigger] out@[q], m),
        decreases out.len() - p,
    {
        assert(meta_before(out@[p as int], m));
        p = p + 1;
    }
    let ghost old_out = out@;
    proof {
        if p < old_out.len() {
            assert(!meta_before(old_out[p as int], m));
            lemma_meta_order(m, old_out[p as int], m);
            assert(meta_before(m, old_out[p as int]));
        }
    }
    out.insert(p, m);
    proof {
        let v = out@;
        assert(v =~= old_out.insert(p as int, m));
        assert forall|a: int, b: int| 0 <= a < b < v.len() implies meta_before(#[trigger] v[a], #[trigger] v[b]) by {
            if a < p && b < p {
                assert(v[a] == old_out[a] && v[b] == old_out[b]);
            } else if a < p && b == p {
            } else if a < p && b > p {
                assert(v[a] == old_out[a] && v[b] == old_out[b - 1]);
                assert(meta_before(old_out[a], m));
                if b - 1 > p {
                    assert(meta_before(old_out[p as int], old_out[b - 1]));
                    lemma_meta_order(m, old_out[p as int], old_out[b - 1]);
                }
                lemma_meta_order(old_out[a], m, old_out[b - 1]);
            } else if a == p {
                assert(v[b] == old_out[b - 1]);
                if b - 1 > p {
                    assert(meta_before(old_out[p as int], old_out[b - 1]));
                    lemma_meta_order(m, old_out[p as int], old_out[b - 1]);
                }
            } else {
                assert(v[a] == old_out[a - 1] && v[b] == old_out[b - 1]);
            }
        }
    }
}

proof fn lemma_listing_grows(old_out: Seq<SaveMeta>, v: Seq<SaveMeta>, rows: Seq<SaveView>, k: int, p: int, m: SaveMeta)
    requires
        0 <= k < rows.len(),
        0 <= p <= old_out.len(),
        v == old_out.insert(p, m),
        meta_matches(m, rows[k]),
        forall|q: int| 0 <= q < old_out.len() ==> #[trigger] lists_one_of(old_out, rows, k, q),
        forall|j: int| 0 <= j < k ==> #[trigger] is_listed(old_out, rows, j),
    ensures
        forall|q: int| 0 <= q < v.len() ==> #[trigger] lists_one_of(v, rows, k + 1, q),
        forall|j: int| 0 <= j < k + 1 ==> #[trigger] is_listed(v, rows, j),
{
    assert forall|q: int| 0 <= q < v.len() implies #[trigger] lists_one_of(v, rows, k + 1, q) by {
        if q < p {
            assert(v[q] == old_out[q]);
            assert(lists_one_of(old_out, rows, k, q));
            let j = choose|j: int| 0 <= j < k && meta_matches(old_out[q], #[trigger] rows[j]);
            assert(0 <= j < k + 1 && meta_matches(v[q], rows[j]));
        } else if q == p {
            assert(0 <= k < k + 1 && meta_matches(v[q], rows[k]));
        } else {
            assert(v[q] == old_out[q - 1]);
            assert(lists_one_of(old_out, rows, k, q - 1));
            let j = choose|j: int| 0 <= j < k && meta_matches(old_out[q - 1], #[trigger] rows[j]);
            assert(0 <= j < k + 1 && meta_matches(v[q], rows[j]));
        }
    }
    assert forall|j: int| 0 <= j < k + 1 implies #[trigger] is_listed(v, rows, j) by {
        if j == k {
            assert(meta_matches(v[p], rows[j]));
        } else {
            assert(is_listed(old_out, rows, j));
            let q = choose|q: int| 0 <= q < old_out.len() && meta_matches(#[trigger] old_out[q], rows[j]);
            if q < p {
                assert(v[q] == old_out[q]);
                assert(meta_matches(v[q], rows[j]));
            } else {
                assert(v[q + 1] == old_out[q]);
                assert(meta_matches(v[q + 1], rows[j]));
            }
        }
    }
}

/// All saves, most recently updated first (higher id first on equal stamps).
#[verifier::rlimit(100)]
#[verifier::spinoff_prover]
pub fn list_saves(db: &Db) -> (r: Result<Vec<SaveMeta>, StoreError>)
    requires
        db.wf(),
    ensures
        r matches Ok(v) && is_listing(v@, db.saves()),
{
    let ghost rows = db.saves();
    let mut out: Vec<SaveMeta> = Vec::new();
    let n = db.rows.len();
    let mut k: usize = 0;
    while k < n
        invariant
            k <= n,
            n == db.rows.len(),
            rows == db.saves(),
            db.wf(),
            out.len() == k,
            forall|q: int| 0 <= q < out.len() ==> #[trigger] lists_one_of(out@, rows, k as int, q),
            forall|j: int| 0 <= j < k ==> #[trigger] is_listed(out@, rows, j),
            metas_sorted(out@),
        decreases n - k,
    {
        let m = meta_of(&db.rows[k]);
        assert(rows[k as int] == db.rows[k as int]@);
        let ghost old_out = out@;
        proof {
            assert forall|q: int| 0 <= q < old_out.len() implies #[trigger] old_out[q].id != m.id by {
                assert(lists_one_of(old_out, rows, k as int, q));
                let j = choose|j: int| 0 <= j < k && meta_matches(old_out[q], #[trigger] rows[j]);
                assert(rows[j].id != rows[k as int].id);
            }
        }
        let ghost gm = m;
        insert_sorted(&mut out, m);
        proof {
            let p = choose|p: int| 0 <= p <= old_out.len() && out@ == old_out.insert(p, gm);
            lemma_listing_grows(old_out, out@, rows, k as int, p, gm);
        }
        k = k + 1;
    }
    proof {
        assert(out.len() == rows.len());
        assert(is_listing(out@, rows));
    }
    Ok(out)
}


impl Db {
    /// The stored saves, in stored order.
    pub fn records(&self) -> (r: &Vec<SaveRecord>)
        ensures
            r.len() == self.saves().len(),
            forall|k: int| 0 <= k < r.len() ==> r[k]@ == self.saves()[k],
    {
        &self.rows
    }

    /// A book holding `rows` as they were stored; the next id is one past the
    /// largest stored id (1 for an empty book). `None` when two saves share an
    /// id or a name, or an id leaves no room for a next one.
    pub fn from_records(rows: Vec<SaveRecord>) -> (r: Option<Db>)
        ensures
            match r {
                Some(db) => {
                    &&& db.wf()
                    &&& db.saves() == Seq::new(rows.len() as nat, |k: int| rows[k]@)
                    &&& (rows.len() == 0 ==> db.next_id() == 1)
                    &&& forall|k: int| 0 <= k < rows.len() ==> rows[k].id < db.next_id()
                    &&& (rows.len() > 0 ==> exists|k: int| 0 <= k < rows.len() && rows[k].id + 1 == db.next_id())
                },
                None => {
                    ||| exists|a: int, b: int| 0 <= a < b < rows.len() && (rows[a].id == rows[b].id || rows[a]@.name == rows[b]@.name)
                    ||| exists|k: int| 0 <= k < rows.len() && rows[k].id == i64::MAX
                },
            },
    {
        let n = rows.len();
        let mut max_id: i64 = 0;
        let mut any = false;
        for a in 0..n
            invariant
                n == rows.len(),
                forall|x: int, y: int| 0 <= x < a && x < y < n ==> rows[x].id != rows[y].id && rows[x]@.name != rows[y]@.name,
                forall|k: int| 0 <= k < a ==> rows[k].id < i64::MAX && rows[k].id <= max_id,
                any <==> a > 0,
                a > 0 ==> exists|k: int| 0 <= k < a && rows[k].id == max_id,
        {
            if rows[a].id == i64::MAX {
                return None;
            }
            for b in a + 1..n
                invariant
                    n == rows.len(),
                    a < n,
                    forall|y: int| a < y < b ==> rows[a as int].id != rows[y].id && rows[a as int]@.name != rows[y]@.name,
            {
                if rows[a].id == rows[b].id || rows[a].name == rows[b].name {
                    return None;
                }
            }
            if !any || rows[a].id > max_id {
                max_id = rows[a].id;
            }
            any = true;
        }
        let next_id = if any { max_id + 1 } else { 1 };
        let db = Db { next_id, rows };
        assert(db.saves() =~= Seq::new(db.rows.len() as nat, |k: int| db.rows[k]@));
        Some(db)
    }
}

/// Header that marks a stored save book: `AETHSAV1`.
pub open spec fn book_magic() -> Seq<u8> {
    seq![65u8, 69u8, 84u8, 72u8, 83u8, 65u8, 86u8, 49u8]
}

fn magic_bytes() -> (r: Vec<u8>)
    ensures
        r@ == book_magic(),
{
    let r: Vec<u8> = vec![65u8, 69u8, 84u8, 72u8, 83u8, 65u8, 86u8, 49u8];
    assert(r@ =~= book_magic());
    r
}

/// The stored form of an encoded book: the header, then the body.
pub fn frame_book(body: &[u8]) -> (r: Vec<u8>)
    ensures
        r@ == book_magic() + body@,
{
    let mut out = magic_bytes();
    let n = body.len();
    for k in 0..n
        invariant
            n == body@.len(),
            out@ == book_magic() + body@.take(k as int),
    {
        out.push(body[k]);
        assert(body@.take(k + 1) =~= body@.take(k as int).push(body@[k as int]));
        assert(out@ =~= book_magic() + body@.take(k + 1));
    }
    assert(body@.take(n as int) =~= body@);
    out
}

/// The body of a stored book, or `None` when the header is missing.
pub fn unframe_book(bytes: &[u8]) -> (r: Option<Vec<u8>>)
    ensures
        match r {
            Some(body) => bytes@ == book_magic() + body@,
            None => !(bytes@.len() >= 8 && bytes@.take(8) == book_magic()),
        },
{
    let magic = magic_bytes();
    if bytes.len() < 8 {
        return None;
    }
    for k in 0..8usize
        invariant
            bytes@.len() >= 8,
            magic@ == book_magic(),
            forall|q: int| 0 <= q < k ==> bytes@[q] == magic@[q],
    {
        if bytes[k] != magic[k] {
            assert(bytes@.take(8)[k as int] != book_magic()[k as int]);
            return None;
        }
    }
    let mut body: Vec<u8> = Vec::new();
    let n = bytes.len();
    for k in 8..n
        invariant
            n == bytes@.len(),
            8 <= n,
            body@ == bytes@.subrange(8, k as int),
    {
        body.push(bytes[k]);
        assert(body@ =~= bytes@.subrange(8, k + 1));
    }
    assert(bytes@ =~= book_magic() + body@);
    Some(body)
}


/// A framed book unframes to its body: whatever `unframe_book` may answer on
/// `book_magic() + body` (as its contract allows), it is `Some(body)`.
pub proof fn law_unframe_after_frame(body: Seq<u8>, r: Option<Seq<u8>>)
    requires
        r matches Some(b) ==> book_magic() + body == book_magic() + b,
        r is None ==> !((book_magic() + body).len() >= 8 && (book_magic() + body).take(8) == book_magic()),
    ensures
        r == Some(body),
{
    let bytes = book_magic() + body;
    assert(bytes.take(8) =~= book_magic());
    if let Some(b) = r {
        assert(b =~= bytes.skip(8));
        assert(body =~= bytes.skip(8));
    }
}

proof fn lemma_unique_id(rows: Seq<SaveView>, next: i64, j: int, id: i64)
    requires
        book_ok(rows, next),
        0 <= j < rows.len(),
        rows[j].id == id,
    ensures
        has_id(rows, id),
        (choose|q: int| 0 <= q < rows.len() && #[trigger] rows[q].id == id) == j,
{
    let q = choose|q: int| 0 <= q < rows.len() && #[trigger] rows[q].id == id;
    if q != j {
        if q < j {
            assert(rows[q].id != rows[j].id);
        } else {
            assert(rows[j].id != rows[q].id);
        }
    }
}

/// What a save stores can be read back: after a successful save, loading the
/// returned id gives the saved payload.
pub proof fn law_load_after_save(
    rows: Seq<SaveView>,
    next: i64,
    rows2: Seq<SaveView>,
    next2: i64,
    name: Seq<char>,
    payload: Seq<u8>,
    bits: u32,
    pop: i64,
    gen: i64,
    id: i64,
)
    requires
        book_ok(rows, next),
        book_ok(rows2, next2),
        save_outcome(rows, next, rows2, next2, name, payload, bits, pop, gen, Ok(id)),
    ensures
        payload_of(rows2, id) == Some(payload),
        has_name(rows2, trimmed(name)),
{
    let t = trimmed(name);
    if has_name(rows, t) {
        let j = choose|j: int| 0 <= j < rows.len() && #[trigger] rows[j].name == t;
        let stamp = choose|stamp: Seq<char>|
            is_some_stamp(stamp) && rows2 == rows.update(j, refreshed(rows[j], stamp, bits, pop, gen, payload));
        assert(rows2[j].id == id);
        lemma_unique_id(rows2, next2, j, id);
        assert(rows2[j].name == t);
    } else {
        let stamp = choose|stamp: Seq<char>|
            is_some_stamp(stamp) && rows2 == seq![fresh_save(next, t, stamp, bits, pop, gen, payload)] + rows;
        assert(rows2[0].id == id);
        lemma_unique_id(rows2, next2, 0, id);
        assert(rows2[0].name == t);
    }
}

/// Saving twice under one name keeps one save: the second save returns the
/// same id and leaves the number of saves as the first left it.
pub proof fn law_resave_keeps_one(
    rows0: Seq<SaveView>,
    next0: i64,
    rows1: Seq<SaveView>,
    next1: i64,
    rows2: Seq<SaveView>,
    next2: i64,
    name: Seq<char>,
    p1: Seq<u8>,
    p2: Seq<u8>,
    bits1: u32,
    bits2: u32,
    pop1: i64,
    pop2: i64,
    gen1: i64,
    gen2: i64,
    id1: i64,
    r2: Result<i64, StoreError>,
)
    requires
        book_ok(rows0, next0),
        book_ok(rows1, next1),
        save_outcome(rows0, next0, rows1, next1, name, p1, bits1, pop1, gen1, Ok(id1)),
        save_outcome(rows1, next1, rows2, next2, name, p2, bits2, pop2, gen2, r2),
    ensures
        r2 == Ok::<i64, StoreError>(id1),
        rows2.len() == rows1.len(),
        next2 == next1,
{
    law_load_after_save(rows0, next0, rows1, next1, name, p1, bits1, pop1, gen1, id1);
    let t = trimmed(name);
    let j = choose|j: int| 0 <= j < rows1.len() && #[trigger] rows1[j].name == t;
    lemma_unique_id(rows1, next1, j, rows1[j].id);
    // The save that holds the name carries id1.
    assert(payload_of(rows1, id1) == Some(p1));
    let k = choose|q: int| 0 <= q < rows1.len() && #[trigger] rows1[q].id == id1;
    assert(rows1[k].name == t) by {
        if has_name(rows0, t) {
            let j0 = choose|j: int| 0 <= j < rows0.len() && #[trigger] rows0[j].name == t;
            assert(rows1[j0].id == id1 && rows1[j0].name == t);
            lemma_unique_id(rows1, next1, j0, id1);
        } else {
            assert(rows1[0].id == id1 && rows1[0].name == t);
            lemma_unique_id(rows1, next1, 0, id1);
        }
    }
    if j != k {
        if j < k {
            assert(rows1[j].name != rows1[k].name);
        } else {
            assert(rows1[k].name != rows1[j].name);
        }
    }
}

/// A deleted save is gone: loading its id afterwards finds nothing.
pub proof fn law_delete_then_load_fails(rows: Seq<SaveView>, next: i64, rows2: Seq<SaveView>, id: i64)
    requires
        book_ok(rows, next),
        delete_outcome(rows, rows2, id, Ok(())),
    ensures
        payload_of(rows2, id) == None::<Seq<u8>>,
        rows2.len() + 1 == rows.len(),
{
    let j = choose|j: int| 0 <= j < rows.len() && #[trigger] rows[j].id == id;
    if has_id(rows2, id) {
        let q = choose|q: int| 0 <= q < rows2.len() && #[trigger] rows2[q].id == id;
        let q1 = if q < j { q } else { q + 1 };
        assert(rows2[q] == rows[q1]);
        if q1 < j {
            assert(rows[q1].id != rows[j].id);
        } else {
            assert(rows[j].id != rows[q1].id);
        }
    }
}

/// A rename keeps what the save holds: loading its id gives the same payload.
pub proof fn law_rename_keeps_payload(rows: Seq<SaveView>, next: i64, rows2: Seq<SaveView>, id: i64, name: Seq<char>, r: Result<(), StoreError>)
    requires
        book_ok(rows, next),
        book_ok(rows2, next),
        rename_outcome(rows, rows2, id, name, r),
    ensures
        payload_of(rows2, id) == payload_of(rows, id),
        r is Ok ==> has_name(rows2, trimmed(name)),
{
    if r is Ok {
        let j = choose|j: int| 0 <= j < rows.len() && #[trigger] rows[j].id == id;
        assert(rows2[j].id == id);
        lemma_unique_id(rows, next, j, id);
        lemma_unique_id(rows2, next, j, id);
        assert(rows2[j].name == trimmed(name));
    }
}

} // verus!
