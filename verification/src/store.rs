//! The vector store: items of text, each with the vector that stands for it,
//! and retrieval of the stored items nearest to a query vector.
//!
//! The store keeps two tables, one of items and one of embedding records,
//! and holds them together: every item has exactly one embedding record and
//! every embedding record belongs to exactly one item. Identifiers are given
//! out in rising order, starting at 1, and never again.
//!
//! The distance between two packed vectors is what the store's metric
//! returns for them. The store takes the returned number as it is and ranks
//! by it: a smaller number is nearer. A metric over non-negative reals can
//! hand back the bits of an IEEE-754 double, which rise with the value.

use crate::blob::{encode, lemma_packed_len, packed};
use crate::error::StoreError;
use crate::ranking::{is_nearest, lemma_selection_unique, nearest_rows, ranks_before};
use vstd::prelude::*;

verus! {

/// The identifier of a stored item.
pub type ItemId = i64;

/// A stored text.
pub struct Item {
    id: ItemId,
    content: String,
}

impl Item {
    pub closed spec fn spec_id(&self) -> i64 {
        self.id
    }

    pub closed spec fn spec_content(&self) -> Seq<char> {
        self.content@
    }

    /// The identifier that the store gave the item.
    #[verifier::when_used_as_spec(spec_id)]
    pub fn id(&self) -> (id: ItemId)
        ensures
            id == self.spec_id(),
    {
        self.id
    }

    /// The text, as it was handed in.
    pub fn content(&self) -> (content: &str)
        ensures
            content@ == self.spec_content(),
    {
        self.content.as_str()
    }
}

/// The stored vector of one item, packed.
pub struct EmbeddingRecord {
    item_id: ItemId,
    vector: Vec<u8>,
}

impl EmbeddingRecord {
    pub closed spec fn spec_item_id(&self) -> i64 {
        self.item_id
    }

    pub closed spec fn spec_vector(&self) -> Seq<u8> {
        self.vector@
    }

    /// The identifier of the item that the vector belongs to.
    #[verifier::when_used_as_spec(spec_item_id)]
    pub fn item_id(&self) -> (id: ItemId)
        ensures
            id == self.spec_item_id(),
    {
        self.item_id
    }

    /// The packed vector.
    pub fn vector(&self) -> (vector: &[u8])
        ensures
            vector@ == self.spec_vector(),
    {
        self.vector.as_slice()
    }
}

/// One stored item with its vector, as the contracts see it.
pub ghost struct Row {
    pub id: int,
    pub content: Seq<char>,
    pub vector: Seq<u8>,
}

/// One match of a query.
#[derive(Debug, Clone, PartialEq, Eq)]
pub struct QueryResult {
    pub item_id: ItemId,
    /// What the metric returned for the query and the item's vector.
    pub distance: u64,
    pub content: String,
}

/// A match as the contracts see it.
pub ghost struct Hit {
    pub item_id: int,
    pub distance: u64,
    pub content: Seq<char>,
}

impl View for QueryResult {
    type V = Hit;

    open spec fn view(&self) -> Hit {
        Hit { item_id: self.item_id as int, distance: self.distance, content: self.content@ }
    }
}

/// The matches of a result list.
pub open spec fn hits(results: Seq<QueryResult>) -> Seq<Hit> {
    results.map_values(|result: QueryResult| result@)
}

/// The rows are what a store of `dimension` components can hold: the
/// identifiers count up from 1, and each vector is packed from `dimension`
/// components.
pub open spec fn consistent(rows: Seq<Row>, dimension: nat) -> bool {
    &&& rows.len() <= i64::MAX
    &&& rows.len() <= usize::MAX
    &&& forall|i: int|
        0 <= i < rows.len() ==> (#[trigger] rows[i]).id == i + 1 && rows[i].vector.len() == 4 * dimension
}

/// `distance` is a value that `metric` may return for the packed vectors
/// `from` and `to`.
pub open spec fn measures<M: Fn(&[u8], &[u8]) -> u64>(metric: M, from: Seq<u8>, to: Seq<u8>, distance: u64) -> bool {
    exists|a: &[u8], b: &[u8]| a@ == from && b@ == to && #[trigger] call_ensures(metric, (a, b), distance)
}

/// `metric` accepts every pair of vectors packed from `dimension`
/// components.
pub open spec fn accepts<M: Fn(&[u8], &[u8]) -> u64>(metric: M, dimension: nat) -> bool {
    forall|a: &[u8], b: &[u8]|
        a@.len() == 4 * dimension && b@.len() == 4 * dimension ==> #[trigger] call_requires(metric, (a, b))
}

/// The matches for the rows listed in `order`, in that order.
pub open spec fn chosen(rows: Seq<Row>, distances: Seq<u64>, order: Seq<usize>) -> Seq<Hit> {
    Seq::new(
        order.len(),
        |a: int|
            Hit {
                item_id: rows[order[a] as int].id,
                distance: distances[order[a] as int],
                content: rows[order[a] as int].content,
            },
    )
}

/// `found` holds the `k` rows nearest under `distances`, or all rows where
/// there are fewer, from the nearest on; among rows equally near, the one
/// with the smaller identifier comes first.
pub open spec fn ranked(rows: Seq<Row>, distances: Seq<u64>, k: nat, found: Seq<Hit>) -> bool {
    exists|order: Seq<usize>| #[trigger] is_nearest(distances, k, order) && found == chosen(rows, distances, order)
}

/// `found` answers a query for the `k` rows nearest to the packed vector
/// `probe`: there are distances, one that `metric` may return for each row,
/// under which `found` is the ranking.
pub open spec fn answers<M: Fn(&[u8], &[u8]) -> u64>(
    rows: Seq<Row>,
    metric: M,
    probe: Seq<u8>,
    k: nat,
    found: Seq<Hit>,
) -> bool {
    exists|distances: Seq<u64>|
        {
            &&& distances.len() == rows.len()
            &&& forall|i: int| 0 <= i < rows.len() ==> measures(metric, probe, rows[i].vector, #[trigger] distances[i])
            &&& #[trigger] ranked(rows, distances, k, found)
        }
}

/// Why a store of `dimension` components that holds `stored` items takes no
/// vector of `length` components, where it takes none: the length is not the
/// store's, or no identifier is left.
pub open spec fn refusal(dimension: usize, stored: nat, length: nat) -> Option<StoreError> {
    if length != dimension {
        Some(StoreError::DimensionMismatch)
    } else if stored >= i64::MAX {
        Some(StoreError::ConstraintViolation)
    } else {
        None
    }
}

/// The row that `insert` adds to `rows` for `content` and `embedding`.
pub open spec fn added(rows: Seq<Row>, content: Seq<char>, embedding: Seq<u32>) -> Row {
    Row { id: rows.len() as int + 1, content, vector: packed(embedding) }
}

/// The matches go from the nearest on, and by rising identifier where the
/// distance is the same.
pub open spec fn in_order(found: Seq<Hit>) -> bool {
    forall|a: int, b: int|
        0 <= a < b < found.len() ==> {
            ||| (#[trigger] found[a]).distance < (#[trigger] found[b]).distance
            ||| found[a].distance == found[b].distance && found[a].item_id < found[b].item_id
        }
}

/// The two tables. Row `i` of each belongs to the item with identifier
/// `i + 1`.
struct Tables {
    items: Vec<Item>,
    embeddings: Vec<EmbeddingRecord>,
}

impl Tables {
    /// Every embedding record lies beside its item.
    spec fn paired(&self) -> bool {
        &&& self.items@.len() == self.embeddings@.len()
        &&& forall|i: int|
            0 <= i < self.embeddings@.len() ==> (#[trigger] self.embeddings@[i]).item_id == self.items@[i].id
    }

    /// The rows that the two tables hold together.
    spec fn rows(&self) -> Seq<Row> {
        Seq::new(
            self.items@.len(),
            |i: int|
                Row { id: self.items@[i].id as int, content: self.items@[i].content@, vector: self.embeddings@[i].vector@ },
        )
    }
}

/// A store of vectors of one dimension, ranked by one metric.
pub struct VectorStore<M: Fn(&[u8], &[u8]) -> u64> {
    dimension: usize,
    metric: M,
    tables: Tables,
}

impl<M: Fn(&[u8], &[u8]) -> u64> View for VectorStore<M> {
    type V = Seq<Row>;

    closed spec fn view(&self) -> Seq<Row> {
        self.tables.rows()
    }
}

impl<M: Fn(&[u8], &[u8]) -> u64> VectorStore<M> {
    /// Holds whenever a store can be seen: the tables pair up, the rows
    /// are consistent, and the metric accepts the store's vectors.
    #[verifier::type_invariant]
    spec fn sound(&self) -> bool {
        &&& self.tables.paired()
        &&& consistent(self.tables.rows(), self.dimension as nat)
        &&& accepts(self.metric, self.dimension as nat)
    }

    pub closed spec fn spec_dimension(&self) -> usize {
        self.dimension
    }

    /// The metric that the store was made with.
    pub closed spec fn metric(&self) -> M {
        self.metric
    }

    /// An empty store for vectors of `dimension` components, ranked by
    /// `metric`.
    pub fn new(dimension: usize, metric: M) -> (store: Self)
        requires
            accepts(metric, dimension as nat),
        ensures
            store@ == Seq::<Row>::empty(),
            store.spec_dimension() == dimension,
            store.metric() == metric,
            consistent(store@, dimension as nat),
    {
        let tables = Tables { items: Vec::new(), embeddings: Vec::new() };
        assert(tables.rows() =~= Seq::<Row>::empty());
        VectorStore { dimension, metric, tables }
    }

    /// The number of components of every vector in the store.
    #[verifier::when_used_as_spec(spec_dimension)]
    pub fn dimension(&self) -> (dimension: usize)
        ensures
            dimension == self.spec_dimension(),
    {
        self.dimension
    }

    /// The number of stored items.
    pub fn item_count(&self) -> (count: usize)
        ensures
            count == self@.len(),
            consistent(self@, self.spec_dimension() as nat),
    {
        proof {
            use_type_invariant(self);
        }
        self.tables.items.len()
    }

    /// The number of stored embedding records: one for each item.
    pub fn embedding_count(&self) -> (count: usize)
        ensures
            count == self@.len(),
    {
        proof {
            use_type_invariant(self);
        }
        self.tables.embeddings.len()
    }

    /// Stores `content` with its vector and returns the identifier of the
    /// new item, which is one more than the last one given out.
    ///
    /// A vector of another length than the store's dimension is refused, and
    /// so is any vector once no identifier is left. A refusal leaves the
    /// store as it was: nothing is stored unless both records are.
    pub fn insert(&mut self, content: &str, embedding: &[u32]) -> (outcome: Result<ItemId, StoreError>)
        ensures
            final(self).spec_dimension() == old(self).spec_dimension(),
            final(self).metric() == old(self).metric(),
            consistent(final(self)@, old(self).spec_dimension() as nat),
            match outcome {
                Ok(id) => {
                    &&& refusal(old(self).spec_dimension(), old(self)@.len(), embedding@.len()) is None
                    &&& id == old(self)@.len() + 1
                    &&& final(self)@ == old(self)@.push(added(old(self)@, content@, embedding@))
                },
                Err(error) => {
                    &&& refusal(old(self).spec_dimension(), old(self)@.len(), embedding@.len()) == Some(error)
                    &&& final(self)@ == old(self)@
                },
            },
    {
        proof {
            use_type_invariant(&*self);
        }
        if embedding.len() != self.dimension {
            return Err(StoreError::DimensionMismatch);
        }
        if self.tables.items.len() as u64 >= i64::MAX as u64 {
            return Err(StoreError::ConstraintViolation);
        }
        let id = self.tables.items.len() as i64 + 1;
        let vector = encode(embedding);
        proof {
            lemma_packed_len(embedding@);
        }
        // The tables leave the store while they grow, so that the store
        // never holds one record of a pair without the other.
        let mut tables = Tables { items: Vec::new(), embeddings: Vec::new() };
        core::mem::swap(&mut self.tables, &mut tables);
        tables.items.push(Item { id, content: content.to_owned() });
        tables.embeddings.push(EmbeddingRecord { item_id: id, vector });
        let count = tables.items.len();
        assert(tables.rows().len() == count);
        assert(tables.rows() =~= old(self)@.push(added(old(self)@, content@, embedding@)));
        self.tables = tables;
        Ok(id)
    }

    /// The item with identifier `id`.
    pub fn item(&self, id: ItemId) -> (found: Result<&Item, StoreError>)
        ensures
            match found {
                Ok(item) => {
                    &&& 1 <= id <= self@.len()
                    &&& item.spec_id() == id
                    &&& item.spec_content() == self@[id - 1].content
                },
                Err(error) => error == StoreError::NotFound && !(1 <= id <= self@.len()),
            },
    {
        proof {
            use_type_invariant(self);
        }
        if id < 1 || id as u64 > self.tables.items.len() as u64 {
            return Err(StoreError::NotFound);
        }
        let at = (id - 1) as usize;
        assert(self@[at as int].id == at + 1);
        Ok(&self.tables.items[at])
    }

    /// The embedding record of the item with identifier `id`.
    pub fn embedding(&self, id: ItemId) -> (found: Result<&EmbeddingRecord, StoreError>)
        ensures
            match found {
                Ok(record) => {
                    &&& 1 <= id <= self@.len()
                    &&& record.spec_item_id() == id
                    &&& record.spec_vector() == self@[id - 1].vector
                },
                Err(error) => error == StoreError::NotFound && !(1 <= id <= self@.len()),
            },
    {
        proof {
            use_type_invariant(self);
        }
        if id < 1 || id as u64 > self.tables.embeddings.len() as u64 {
            return Err(StoreError::NotFound);
        }
        let at = (id - 1) as usize;
        assert(self@[at as int].id == at + 1);
        Ok(&self.tables.embeddings[at])
    }

    /// What the metric returns for `probe` and each stored vector, in the
    /// order of the rows.
    fn measure(&self, probe: &[u8]) -> (distances: Vec<u64>)
        requires
            probe@.len() == 4 * self.spec_dimension(),
        ensures
            distances@.len() == self@.len(),
            forall|i: int|
                0 <= i < self@.len() ==> measures(self.metric(), probe@, self@[i].vector, #[trigger] distances@[i]),
    {
        proof {
            use_type_invariant(self);
        }
        let mut distances: Vec<u64> = Vec::new();
        let mut row: usize = 0;
        while row < self.tables.embeddings.len()
            invariant
                self.sound(),
                probe@.len() == 4 * self.spec_dimension(),
                row <= self.tables.embeddings@.len(),
                distances@.len() == row,
                forall|i: int|
                    0 <= i < row ==> measures(self.metric(), probe@, self@[i].vector, #[trigger] distances@[i]),
            decreases self.tables.embeddings@.len() - row,
        {
            let stored = self.tables.embeddings[row].vector.as_slice();
            assert(self@[row as int].vector == stored@);
            let distance = (self.metric)(probe, stored);
            assert(measures(self.metric(), probe@, self@[row as int].vector, distance));
            distances.push(distance);
            row += 1;
        }
        distances
    }

    /// The `k` stored items nearest under `distances`, which holds one
    /// distance for each stored item in the order of their identifiers.
    pub fn rank(&self, distances: &[u64], k: usize) -> (results: Vec<QueryResult>)
        requires
            distances@.len() == self@.len(),
        ensures
            ranked(self@, distances@, k as nat, hits(results@)),
    {
        proof {
            use_type_invariant(self);
        }
        let order = nearest_rows(distances, k);
        let mut results: Vec<QueryResult> = Vec::new();
        let mut place: usize = 0;
        while place < order.len()
            invariant
                self.sound(),
                distances@.len() == self@.len(),
                is_nearest(distances@, k as nat, order@),
                place <= order@.len(),
                results@.len() == place,
                forall|a: int| 0 <= a < place ==> (#[trigger] results@[a])@ == chosen(self@, distances@, order@)[a],
            decreases order@.len() - place,
        {
            let row = order[place];
            let item = &self.tables.items[row];
            results.push(QueryResult { item_id: item.id, distance: distances[row], content: item.content.clone() });
            place += 1;
        }
        assert(hits(results@) =~= chosen(self@, distances@, order@));
        results
    }

    /// The `k` stored items nearest to `embedding`, from the nearest on, or
    /// all stored items where there are fewer than `k`. Among items equally
    /// near, the one with the smaller identifier comes first.
    ///
    /// A vector of another length than the store's dimension is refused.
    pub fn query(&self, embedding: &[u32], k: usize) -> (outcome: Result<Vec<QueryResult>, StoreError>)
        ensures
            match outcome {
                Ok(results) => {
                    &&& embedding@.len() == self.spec_dimension()
                    &&& answers(self@, self.metric(), packed(embedding@), k as nat, hits(results@))
                    &&& results@.len() == if k <= self@.len() { k as nat } else { self@.len() }
                    &&& in_order(hits(results@))
                },
                Err(error) => error == StoreError::DimensionMismatch && embedding@.len() != self.spec_dimension(),
            },
    {
        proof {
            use_type_invariant(self);
        }
        if embedding.len() != self.dimension {
            return Err(StoreError::DimensionMismatch);
        }
        let probe = encode(embedding);
        proof {
            lemma_packed_len(embedding@);
        }
        let distances = self.measure(probe.as_slice());
        let results = self.rank(distances.as_slice(), k);
        proof {
            lemma_ranked_len(self@, distances@, k as nat, hits(results@));
            lemma_ranked_in_order(self@, self.spec_dimension() as nat, distances@, k as nat, hits(results@));
        }
        Ok(results)
    }
}

/// A ranking holds `k` matches, or as many as there are rows where there are
/// fewer than `k`.
pub proof fn lemma_ranked_len(rows: Seq<Row>, distances: Seq<u64>, k: nat, found: Seq<Hit>)
    requires
        distances.len() == rows.len(),
        ranked(rows, distances, k, found),
    ensures
        found.len() == if k <= rows.len() { k } else { rows.len() },
{
}

/// A ranking goes by rising distance, and by rising identifier where the
/// distance is the same.
pub proof fn lemma_ranked_in_order(rows: Seq<Row>, dimension: nat, distances: Seq<u64>, k: nat, found: Seq<Hit>)
    requires
        consistent(rows, dimension),
        distances.len() == rows.len(),
        ranked(rows, distances, k, found),
    ensures
        in_order(found),
{
    let order = choose|order: Seq<usize>| #[trigger] is_nearest(distances, k, order) && found == chosen(rows, distances, order);
    assert forall|a: int, b: int| 0 <= a < b < found.len() implies {
        ||| (#[trigger] found[a]).distance < (#[trigger] found[b]).distance
        ||| found[a].distance == found[b].distance && found[a].item_id < found[b].item_id
    } by {
        assert(ranks_before(distances, order[a] as int, order[b] as int));
    }
}

/// The rows and the distances leave one ranking only.
pub proof fn lemma_ranked_unique(rows: Seq<Row>, distances: Seq<u64>, k: nat, first: Seq<Hit>, second: Seq<Hit>)
    requires
        ranked(rows, distances, k, first),
        ranked(rows, distances, k, second),
    ensures
        first == second,
{
    let one = choose|order: Seq<usize>| #[trigger] is_nearest(distances, k, order) && first == chosen(rows, distances, order);
    let other = choose|order: Seq<usize>| #[trigger] is_nearest(distances, k, order) && second == chosen(rows, distances, order);
    lemma_selection_unique(distances, k, one, other);
}

/// An answer holds `k` matches, or as many as there are rows where there are
/// fewer than `k`: a query for more than is stored yields every stored item
/// once and nothing else.
pub proof fn lemma_answer_len<M: Fn(&[u8], &[u8]) -> u64>(
    rows: Seq<Row>,
    metric: M,
    probe: Seq<u8>,
    k: nat,
    found: Seq<Hit>,
)
    requires
        answers(rows, metric, probe, k, found),
    ensures
        found.len() == if k <= rows.len() { k } else { rows.len() },
{
    let distances = choose|distances: Seq<u64>|
        {
            &&& distances.len() == rows.len()
            &&& forall|i: int| 0 <= i < rows.len() ==> measures(metric, probe, rows[i].vector, #[trigger] distances[i])
            &&& #[trigger] ranked(rows, distances, k, found)
        };
    lemma_ranked_len(rows, distances, k, found);
}

/// An answer goes by rising distance, and by rising identifier where the
/// distance is the same.
pub proof fn lemma_answer_in_order<M: Fn(&[u8], &[u8]) -> u64>(
    rows: Seq<Row>,
    dimension: nat,
    metric: M,
    probe: Seq<u8>,
    k: nat,
    found: Seq<Hit>,
)
    requires
        consistent(rows, dimension),
        answers(rows, metric, probe, k, found),
    ensures
        in_order(found),
{
    let distances = choose|distances: Seq<u64>|
        {
            &&& distances.len() == rows.len()
            &&& forall|i: int| 0 <= i < rows.len() ==> measures(metric, probe, rows[i].vector, #[trigger] distances[i])
            &&& #[trigger] ranked(rows, distances, k, found)
        };
    lemma_ranked_in_order(rows, dimension, distances, k, found);
}

/// An empty store answers every query with no match.
pub proof fn lemma_empty_answer<M: Fn(&[u8], &[u8]) -> u64>(metric: M, probe: Seq<u8>, k: nat, found: Seq<Hit>)
    requires
        answers(Seq::<Row>::empty(), metric, probe, k, found),
    ensures
        found == Seq::<Hit>::empty(),
{
    lemma_answer_len(Seq::<Row>::empty(), metric, probe, k, found);
    assert(found =~= Seq::<Hit>::empty());
}

/// A stored vector is its own nearest neighbour. Under a metric that puts
/// the vector of row `at` at distance 0 from itself, and at another distance
/// from the vector of every other row, a query with that vector for one item
/// or more yields row `at` first, at distance 0.
pub proof fn lemma_stored_vector_is_nearest<M: Fn(&[u8], &[u8]) -> u64>(
    rows: Seq<Row>,
    dimension: nat,
    metric: M,
    at: int,
    k: nat,
    found: Seq<Hit>,
)
    requires
        consistent(rows, dimension),
        0 <= at < rows.len(),
        k >= 1,
        answers(rows, metric, rows[at].vector, k, found),
        forall|distance: u64| #[trigger] measures(metric, rows[at].vector, rows[at].vector, distance) ==> distance == 0,
        forall|i: int, distance: u64|
            0 <= i < rows.len() && i != at && #[trigger] measures(metric, rows[at].vector, rows[i].vector, distance)
                ==> distance != 0,
    ensures
        found.len() >= 1,
        found[0] == (Hit { item_id: rows[at].id, distance: 0, content: rows[at].content }),
        k == 1 ==> found == seq![Hit { item_id: rows[at].id, distance: 0, content: rows[at].content }],
{
    let probe = rows[at].vector;
    let distances = choose|distances: Seq<u64>|
        {
            &&& distances.len() == rows.len()
            &&& forall|i: int| 0 <= i < rows.len() ==> measures(metric, probe, rows[i].vector, #[trigger] distances[i])
            &&& #[trigger] ranked(rows, distances, k, found)
        };
    let order = choose|order: Seq<usize>| #[trigger] is_nearest(distances, k, order) && found == chosen(rows, distances, order);
    assert(measures(metric, probe, rows[at].vector, distances[at]));
    assert(distances[at] == 0);
    assert forall|i: int| 0 <= i < rows.len() && i != at implies distances[i] != 0 by {
        assert(measures(metric, probe, rows[i].vector, distances[i]));
    }
    assert(order.len() >= 1);
    if order[0] != at {
        if order.contains(at as usize) {
            let a = choose|a: int| 0 <= a < order.len() && order[a] == at as usize;
            assert(ranks_before(distances, order[0] as int, order[a] as int));
        } else {
            assert(ranks_before(distances, order[0] as int, at as usize as int));
        }
    }
    assert(found[0] == chosen(rows, distances, order)[0]);
    if k == 1 {
        assert(found =~= seq![Hit { item_id: rows[at].id, distance: 0, content: rows[at].content }]);
    }
}

/// What is stored is found. After `insert` has added the row for `content`
/// and `embedding` to `rows`, a query with the same vector for one item
/// yields that item and its content at distance 0, under a metric that puts
/// the vector at distance 0 from itself and from no other stored vector.
pub proof fn lemma_inserted_is_found<M: Fn(&[u8], &[u8]) -> u64>(
    rows: Seq<Row>,
    dimension: nat,
    metric: M,
    content: Seq<char>,
    embedding: Seq<u32>,
    found: Seq<Hit>,
)
    requires
        consistent(rows.push(added(rows, content, embedding)), dimension),
        answers(rows.push(added(rows, content, embedding)), metric, packed(embedding), 1, found),
        forall|distance: u64| #[trigger] measures(metric, packed(embedding), packed(embedding), distance) ==> distance == 0,
        forall|i: int, distance: u64|
            0 <= i < rows.len() && #[trigger] measures(metric, packed(embedding), rows[i].vector, distance) ==> distance
                != 0,
    ensures
        found == seq![Hit { item_id: rows.len() as int + 1, distance: 0, content }],
{
    let after = rows.push(added(rows, content, embedding));
    lemma_stored_vector_is_nearest(after, dimension, metric, rows.len() as int, 1, found);
}

} // verus!
