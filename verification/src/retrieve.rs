//! Retrieval: an embedder and a store composed.
use crate::chunk::{Chunk, ChunkData};
use crate::single::Single;
use crate::store::{self, Hit};
use vstd::prelude::*;

verus! {

/// Converts text into a vector.
pub trait Embedder: Send + Sync {
    /// Embeds a text. The vector has `dim()` elements.
    fn embed(&self, text: &str) -> (r: Result<Vec<Single>, String>)
        ensures
            r matches Ok(v) ==> forall|n: usize| #[trigger]
                call_ensures(Self::dim, (self,), n) ==> v@.len() == n,
    ;

    /// Number of elements of the vectors. It must match the store's.
    fn dim(&self) -> usize;

    /// Identity of the embedder, with which a store is stamped.
    fn tag(&self) -> &str;
}

/// Persistent vector store.
pub trait Store: Send + Sync + Sized {
    /// What putting a chunk with a vector may make of a store, and what it may
    /// return.
    open spec fn puts(
        before: Self,
        chunk: ChunkData,
        vector: Seq<Single>,
        after: Self,
        r: Result<(), String>,
    ) -> bool {
        true
    }

    /// Puts a chunk and its vector.
    fn put(&mut self, chunk: &Chunk, vector: &[Single]) -> (r: Result<(), String>)
        ensures
            Self::puts(*old(self), chunk@, vector@, *final(self), r),
    ;

    /// The chunks most similar to a vector.
    fn query(&self, vector: &[Single], top_k: usize) -> Result<Vec<Hit>, String>;

    /// The chunk with an identifier.
    fn get_chunk(&self, chunk_id: &str) -> Result<Option<Chunk>, String>;

    /// Number of vectors.
    fn len(&self) -> usize;

    /// Whether there are no vectors.
    fn is_empty(&self) -> (b: bool)
        ensures
            exists|n: usize| #[trigger] call_ensures(Self::len, (self,), n) && b == (n == 0),
    {
        self.len() == 0
    }
}

/// The chunk of an optional chunk.
pub open spec fn chunk_data(c: Option<Chunk>) -> Option<ChunkData> {
    match c {
        Some(v) => Some(v@),
        None => None,
    }
}

/// The hits for which a chunk was found, each with its chunk, in order.
pub open spec fn resolved(
    hits: Seq<(Seq<char>, Single)>,
    found: Seq<Option<ChunkData>>,
) -> Seq<((Seq<char>, Single), ChunkData)>
    decreases hits.len(),
{
    if hits.len() == 0 || found.len() != hits.len() {
        seq![]
    } else {
        let before = resolved(hits.drop_last(), found.drop_last());
        match found.last() {
            Some(c) => before.push((hits.last(), c)),
            None => before,
        }
    }
}

/// Identifiers, similarities and chunks of retrieved hits.
pub open spec fn pair_data(list: Seq<(Hit, Chunk)>) -> Seq<((Seq<char>, Single), ChunkData)> {
    list.map_values(|p: (Hit, Chunk)| (p.0.data(), p.1@))
}

/// The chunks that were found for hits.
pub open spec fn found_data(list: Seq<Option<Chunk>>) -> Seq<Option<ChunkData>> {
    list.map_values(|c: Option<Chunk>| chunk_data(c))
}

/// Pairs hits with the chunks that were found for them; a hit without a chunk
/// is left out.
pub fn resolve(hits: Vec<Hit>, found: Vec<Option<Chunk>>) -> (r: Vec<(Hit, Chunk)>)
    requires
        hits@.len() == found@.len(),
    ensures
        pair_data(r@) == resolved(store::hit_data(hits@), found_data(found@)),
{
    let mut r: Vec<(Hit, Chunk)> = Vec::new();
    let ghost all_hits = store::hit_data(hits@);
    let ghost all_found = found_data(found@);
    assert(all_hits.take(0) == Seq::<(Seq<char>, Single)>::empty());
    for i in 0..hits.len()
        invariant
            hits@.len() == found@.len(),
            all_hits == store::hit_data(hits@),
            all_found == found_data(found@),
            pair_data(r@) == resolved(all_hits.take(i as int), all_found.take(i as int)),
    {
        assert(all_hits.take(i + 1).drop_last() == all_hits.take(i as int));
        assert(all_found.take(i + 1).drop_last() == all_found.take(i as int));
        match &found[i] {
            Some(c) => {
                let ghost before = r@;
                let pair = (hits[i].clone(), c.clone());
                r.push(pair);
                assert(pair_data(r@) == pair_data(before).push((pair.0.data(), pair.1@)));
            },
            None => {},
        }
    }
    assert(all_hits.take(hits@.len() as int) == all_hits);
    assert(all_found.take(found@.len() as int) == all_found);
    r
}

/// Retrieves chunks: embeds a query, asks the store, returns chunks.
pub struct Retriever<E: Embedder, S: Store> {
    pub embedder: E,
    pub store: S,
}

impl<E: Embedder, S: Store> Retriever<E, S> {
    /// A retriever over an embedder and a store.
    pub fn new(embedder: E, store: S) -> (r: Self)
        ensures
            r.embedder == embedder,
            r.store == store,
    {
        Retriever { embedder, store }
    }

    /// The embedder may give this vector for the query.
    pub open spec fn embeds(self, query: &str, vector: Vec<Single>) -> bool {
        call_ensures(E::embed, (&self.embedder, query), Ok::<Vec<Single>, String>(vector))
    }

    /// The store may give these hits for a vector.
    pub open spec fn ranks(self, vector: &[Single], top_k: usize, hits: Vec<Hit>) -> bool {
        call_ensures(S::query, (&self.store, vector, top_k), Ok::<Vec<Hit>, String>(hits))
    }

    /// The store may give this chunk for an identifier.
    pub open spec fn finds(self, id: &str, chunk: Option<Chunk>) -> bool {
        call_ensures(S::get_chunk, (&self.store, id), Ok::<Option<Chunk>, String>(chunk))
    }

    /// The store may give this chunk for the identifier of a hit.
    pub open spec fn locates(self, id: Seq<char>, chunk: Option<Chunk>) -> bool {
        exists|s: &str| s@ == id && #[trigger] self.finds(s, chunk)
    }

    /// The embedder and the store may give these hits for a query.
    pub open spec fn hits_for(self, query: &str, top_k: usize, hits: Vec<Hit>) -> bool {
        exists|vector: Vec<Single>, v: &[Single]| #[trigger]
            self.embeds(query, vector) && v@ == vector@ && #[trigger] self.ranks(v, top_k, hits)
    }

    /// The store may give these chunks for the first hits.
    pub open spec fn locates_all(self, hits: Seq<Hit>, found: Seq<Option<Chunk>>) -> bool {
        &&& found.len() <= hits.len()
        &&& forall|i: int|
            0 <= i < found.len() ==> self.locates(hits[i].chunk_id@, #[trigger] found[i])
    }

    /// The embedder may refuse the query with this error.
    pub open spec fn embedding_fails(self, query: &str, e: String) -> bool {
        call_ensures(E::embed, (&self.embedder, query), Err::<Vec<Single>, String>(e))
    }

    /// The store may refuse a vector with this error.
    pub open spec fn ranking_fails(self, vector: &[Single], top_k: usize, e: String) -> bool {
        call_ensures(S::query, (&self.store, vector, top_k), Err::<Vec<Hit>, String>(e))
    }

    /// The store may refuse an identifier with this error.
    pub open spec fn finding_fails(self, id: &str, e: String) -> bool {
        call_ensures(S::get_chunk, (&self.store, id), Err::<Option<Chunk>, String>(e))
    }

    /// The error is the first one: of the embedder for the query, of the store
    /// for the query's vector, or of the store for a hit before which it gave a
    /// chunk for each.
    pub open spec fn fails(self, query: &str, top_k: usize, e: String) -> bool {
        ||| self.embedding_fails(query, e)
        ||| exists|vector: Vec<Single>, v: &[Single]| #[trigger]
            self.embeds(query, vector) && v@ == vector@ && #[trigger] self.ranking_fails(
                v,
                top_k,
                e,
            )
        ||| exists|hits: Vec<Hit>, found: Seq<Option<Chunk>>, id: &str|
            {
                &&& #[trigger] self.hits_for(query, top_k, hits)
                &&& #[trigger] self.locates_all(hits@, found)
                &&& found.len() < hits@.len()
                &&& id@ == hits@[found.len() as int].chunk_id@
                &&& #[trigger] self.finding_fails(id, e)
            }
    }

    /// The hits of a query with their chunks. What the store does not find any
    /// more is left out. The first error of the embedder or the store is
    /// returned.
    pub fn retrieve(&self, query: &str, top_k: usize) -> (r: Result<Vec<(Hit, Chunk)>, String>)
        ensures
            match r {
                Ok(pairs) => exists|hits: Vec<Hit>, found: Seq<Option<Chunk>>| #[trigger]
                    self.hits_for(query, top_k, hits) && #[trigger] self.locates_all(hits@, found)
                        && found.len() == hits@.len() && pair_data(pairs@) == resolved(
                        store::hit_data(hits@),
                        found_data(found),
                    ),
                Err(e) => self.fails(query, top_k, e),
            },
    {
        let vector = match self.embedder.embed(query) {
            Ok(v) => v,
            Err(e) => {
                return Err(e);
            },
        };
        let v: &[Single] = vector.as_slice();
        assert(self.embeds(query, vector) && v@ == vector@);
        let hits = match self.store.query(v, top_k) {
            Ok(h) => h,
            Err(e) => {
                assert(self.ranking_fails(v, top_k, e));
                return Err(e);
            },
        };
        assert(self.ranks(v, top_k, hits));
        assert(self.hits_for(query, top_k, hits));
        let mut found: Vec<Option<Chunk>> = Vec::new();
        for i in 0..hits.len()
            invariant
                self.hits_for(query, top_k, hits),
                found@.len() == i,
                self.locates_all(hits@, found@),
        {
            let id: &str = hits[i].chunk_id.as_str();
            match self.store.get_chunk(id) {
                Ok(c) => {
                    assert(self.finds(id, c));
                    let ghost before = found@;
                    found.push(c);
                    assert forall|k: int| 0 <= k < i + 1 implies self.locates(
                        hits@[k].chunk_id@,
                        #[trigger] found@[k],
                    ) by {
                        if k < i {
                            assert(found@[k] == before[k]);
                        }
                    }
                },
                Err(e) => {
                    assert(self.finding_fails(id, e));
                    return Err(e);
                },
            }
        }
        let ghost all = found@;
        assert(self.locates_all(hits@, all));
        let r = resolve(hits, found);
        Ok(r)
    }
}

/// Hits are paired with the chunks that were found for them, each with its own and
/// in order; the others are left out.
pub proof fn lemma_hits_get_their_chunks(
    hits: Vec<Hit>,
    found: Vec<Option<Chunk>>,
    r: Vec<(Hit, Chunk)>,
)
    requires
        hits@.len() == found@.len(),
        call_ensures(resolve, (hits, found), r),
    ensures
        pair_data(r@) == hits@.zip_with(found@).filter_map(
            |x: (Hit, Option<Chunk>)|
                match x.1 {
                    Some(c) => Some(((x.0.chunk_id@, x.0.score), c@)),
                    None => None,
                },
        ),
{
    lemma_resolved(hits@, found@);
}

proof fn lemma_resolved(hits: Seq<Hit>, found: Seq<Option<Chunk>>)
    requires
        hits.len() == found.len(),
    ensures
        resolved(store::hit_data(hits), found_data(found)) == hits.zip_with(found).filter_map(
            |x: (Hit, Option<Chunk>)|
                match x.1 {
                    Some(c) => Some(((x.0.chunk_id@, x.0.score), c@)),
                    None => None,
                },
        ),
    decreases hits.len(),
{
    let f = |x: (Hit, Option<Chunk>)|
        match x.1 {
            Some(c) => Some(((x.0.chunk_id@, x.0.score), c@)),
            None => None,
        };
    let zipped = hits.zip_with(found);
    if hits.len() > 0 {
        let h = hits.drop_last();
        let g = found.drop_last();
        lemma_resolved(h, g);
        assert(zipped.drop_last() == h.zip_with(g));
        assert(zipped.last() == (hits.last(), found.last()));
        assert(store::hit_data(hits).drop_last() == store::hit_data(h));
        assert(found_data(found).drop_last() == found_data(g));
        let rest = zipped.drop_last().filter_map(f);
        assert(zipped.filter_map(f) == match f(zipped.last()) {
            Some(p) => rest.push(p),
            None => rest,
        });
    } else {
        assert(zipped.filter_map(f) == Seq::<((Seq<char>, Single), ChunkData)>::empty());
    }
}

/// What is retrieved for a query is what the store names for the embedded query:
/// each hit with the chunk that the store gives for its identifier, in order, without
/// the hits for which it gives none.
pub proof fn lemma_retrieval_pairs_hits_with_chunks<'a, E: Embedder, S: Store>(
    retriever: &'a Retriever<E, S>,
    query: &'a str,
    top_k: usize,
    pairs: Vec<(Hit, Chunk)>,
) -> (r: (Vec<Single>, &'a [Single], Vec<Hit>, Seq<&'a str>, Seq<Option<Chunk>>))
    requires
        call_ensures(Retriever::<E, S>::retrieve, (retriever, query, top_k), Ok(pairs)),
    ensures
        call_ensures(E::embed, (&retriever.embedder, query), Ok(r.0)),
        r.1@ == r.0@,
        call_ensures(S::query, (&retriever.store, r.1, top_k), Ok(r.2)),
        r.3.len() == r.2@.len() && r.4.len() == r.2@.len(),
        forall|i: int| 0 <= i < r.2@.len() ==> (#[trigger] r.3[i])@ == r.2@[i].chunk_id@,
        forall|i: int|
            0 <= i < r.2@.len() ==> call_ensures(
                S::get_chunk,
                (&retriever.store, #[trigger] r.3[i]),
                Ok(r.4[i]),
            ),
        pair_data(pairs@) == r.2@.zip_with(r.4).filter_map(
            |x: (Hit, Option<Chunk>)|
                match x.1 {
                    Some(c) => Some(((x.0.chunk_id@, x.0.score), c@)),
                    None => None,
                },
        ),
{
    let (hits, found) = choose|hits: Vec<Hit>, found: Seq<Option<Chunk>>| #[trigger]
        retriever.hits_for(query, top_k, hits) && #[trigger] retriever.locates_all(hits@, found)
            && found.len() == hits@.len() && pair_data(pairs@) == resolved(
            store::hit_data(hits@),
            found_data(found),
        );
    let (vector, v) = choose|vector: Vec<Single>, v: &[Single]| #[trigger]
        retriever.embeds(query, vector) && v@ == vector@ && #[trigger] retriever.ranks(
            v,
            top_k,
            hits,
        );
    let ids = Seq::new(
        hits@.len(),
        |i: int|
            choose|id: &str|
                id@ == hits@[i].chunk_id@ && #[trigger] retriever.finds(id, found[i]),
    );
    assert forall|i: int| 0 <= i < hits@.len() implies (#[trigger] ids[i])@ == hits@[i].chunk_id@
        && retriever.finds(ids[i], found[i]) by {
        assert(retriever.locates(hits@[i].chunk_id@, found[i]));
        let id = choose|id: &str|
            id@ == hits@[i].chunk_id@ && #[trigger] retriever.finds(id, found[i]);
        assert(ids[i] == id);
    }
    lemma_resolved(hits@, found);
    (vector, v, hits, ids, found)
}

/// Where retrieval failed.
pub enum Failure<'a> {
    /// The embedder refused the query.
    Embedding,
    /// The store refused the vector of the query.
    Ranking(Vec<Single>, &'a [Single]),
    /// The store refused the identifier of a hit.
    Finding(Vec<Single>, &'a [Single], Vec<Hit>, int, &'a str),
}

/// The error of a retrieval is the one that the embedder gave for the query, or the
/// store for its vector or for the identifier of a hit.
pub proof fn lemma_retrieval_hands_errors_on<'a, E: Embedder, S: Store>(
    retriever: &'a Retriever<E, S>,
    query: &'a str,
    top_k: usize,
    e: String,
) -> (failure: Failure<'a>)
    requires
        call_ensures(Retriever::<E, S>::retrieve, (retriever, query, top_k), Err(e)),
    ensures
        match failure {
            Failure::Embedding => call_ensures(E::embed, (&retriever.embedder, query), Err(e)),
            Failure::Ranking(vector, v) => {
                &&& call_ensures(E::embed, (&retriever.embedder, query), Ok(vector))
                &&& v@ == vector@
                &&& call_ensures(S::query, (&retriever.store, v, top_k), Err(e))
            },
            Failure::Finding(vector, v, hits, i, id) => {
                &&& call_ensures(E::embed, (&retriever.embedder, query), Ok(vector))
                &&& v@ == vector@
                &&& call_ensures(S::query, (&retriever.store, v, top_k), Ok(hits))
                &&& 0 <= i < hits@.len() && id@ == hits@[i].chunk_id@
                &&& call_ensures(S::get_chunk, (&retriever.store, id), Err(e))
            },
        },
{
    if retriever.embedding_fails(query, e) {
        Failure::Embedding
    } else if exists|vector: Vec<Single>, v: &[Single]| #[trigger]
        retriever.embeds(query, vector) && v@ == vector@ && #[trigger] retriever.ranking_fails(
            v,
            top_k,
            e,
        ) {
        let (vector, v) = choose|vector: Vec<Single>, v: &[Single]| #[trigger]
            retriever.embeds(query, vector) && v@ == vector@ && #[trigger] retriever.ranking_fails(
                v,
                top_k,
                e,
            );
        Failure::Ranking(vector, v)
    } else {
        let (hits, found, id) = choose|hits: Vec<Hit>, found: Seq<Option<Chunk>>, id: &str|
            {
                &&& #[trigger] retriever.hits_for(query, top_k, hits)
                &&& #[trigger] retriever.locates_all(hits@, found)
                &&& found.len() < hits@.len()
                &&& id@ == hits@[found.len() as int].chunk_id@
                &&& #[trigger] retriever.finding_fails(id, e)
            };
        let (vector, v) = choose|vector: Vec<Single>, v: &[Single]| #[trigger]
            retriever.embeds(query, vector) && v@ == vector@ && #[trigger] retriever.ranks(
                v,
                top_k,
                hits,
            );
        Failure::Finding(vector, v, hits, found.len() as int, id)
    }
}

} // verus!
