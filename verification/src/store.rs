//! The long-term memory store: two co-indexed mappings from generated keys
//! to vectors and to text, a shared key counter, and the write and read
//! paths over them.
//!
//! Keys are minted from the counter, so in a well-formed store the key of an
//! entry equals its position and both mappings always carry the same key
//! set. A vector key without a text counterpart is the fatal `MissingText`
//! condition: the read path looks every key up fallibly and reports it
//! rather than fault.
use crate::ranking::{
    cand_has_key, has_key, keys_of, lemma_scored_no_dup, lemma_top_k_properties, no_dup_keys,
    top_k, top_k_spec,
};
use crate::similarity::{Vector, MAX_DIM};
use vstd::prelude::*;

verus! {

/// What can go wrong in the memory subsystem.
#[derive(Clone, Copy, Debug, PartialEq, Eq, Structural)]
pub enum MemoryError {
    /// A vector's length disagrees with the store's established dimension.
    DimensionMismatch,
    /// A vector key has no text counterpart: a store invariant violation.
    MissingText,
    /// An external collaborator failed or returned a malformed batch.
    UpstreamError,
    /// The embedder returned zero vectors for a non-empty request.
    EmptyEmbeddingResult,
}

/// The embedder's result: a backend may return one vector for the whole
/// request or one vector per input. Both shapes flow through one code path.
pub enum Embeddings {
    One(Vector),
    Many(Vec<Vector>),
}

/// The vectors of an embedder result, in order.
pub open spec fn embeddings_seq(e: Embeddings) -> Seq<Vector> {
    match e {
        Embeddings::One(v) => seq![v],
        Embeddings::Many(vs) => vs@,
    }
}

/// Every vector of the result is well-formed.
pub open spec fn embeddings_wf(e: Embeddings) -> bool {
    forall|i: int|
        0 <= i < embeddings_seq(e).len() ==> (#[trigger] embeddings_seq(e)[i]).wf()
}

/// Flattens the tagged embedder result into the uniform vector list that
/// both the write path and the read path consume.
pub fn generate_embeddings(e: Embeddings) -> (r: Vec<Vector>)
    ensures
        r@ == embeddings_seq(e),
{
    match e {
        Embeddings::One(v) => {
            let mut r: Vec<Vector> = Vec::new();
            r.push(v);
            r
        },
        Embeddings::Many(vs) => vs,
    }
}

/// The first text recorded under this key, if any.
pub open spec fn find_text(s: Seq<(u64, String)>, key: u64) -> Option<String>
    decreases s.len(),
{
    if s.len() == 0 {
        None
    } else if s[0].0 == key {
        Some(s[0].1)
    } else {
        find_text(s.skip(1), key)
    }
}

/// In a run of entries whose keys count up from `base`, lookup is indexing.
proof fn lemma_find_text_indexed(s: Seq<(u64, String)>, base: int, key: u64)
    requires
        0 <= base,
        forall|i: int| 0 <= i < s.len() ==> (#[trigger] s[i]).0 as int == base + i,
    ensures
        base <= key < base + s.len() ==> find_text(s, key) == Some(s[key - base].1),
        !(base <= key < base + s.len()) ==> find_text(s, key) is None,
    decreases s.len(),
{
    if s.len() > 0 {
        assert(s[0].0 as int == base);
        if s[0].0 != key {
            assert(forall|i: int|
                0 <= i < s.skip(1).len() ==> (#[trigger] s.skip(1)[i]).0 as int == (base + 1) + i)
                by {
                assert(forall|i: int| 0 <= i < s.skip(1).len() ==> s.skip(1)[i] == s[i + 1]);
            }
            lemma_find_text_indexed(s.skip(1), base + 1, key);
            if base + 1 <= key < base + 1 + s.skip(1).len() {
                assert(s.skip(1)[key - base - 1] == s[key - base]);
            }
        }
    }
}

/// The long-term store: vectors by key, text by key, the shared key counter,
/// and the dimension fixed by the first insertion.
pub struct MemoryStore {
    pub vectors: Vec<(u64, Vector)>,
    pub texts: Vec<(u64, String)>,
    pub next_key: u64,
    pub dim: Option<usize>,
}

impl MemoryStore {
    /// Well-formedness: the two mappings are co-indexed over the same keys,
    /// keys are the positions minted by the counter, every vector is bounded,
    /// and all vectors share the established dimension.
    pub open spec fn wf(self) -> bool {
        &&& self.texts@.len() == self.vectors@.len()
        &&& self.next_key as int == self.vectors@.len()
        &&& forall|i: int|
            0 <= i < self.vectors@.len() ==> (#[trigger] self.vectors@[i]).0 as int == i
        &&& forall|i: int|
            0 <= i < self.texts@.len() ==> (#[trigger] self.texts@[i]).0 as int == i
        &&& forall|i: int|
            0 <= i < self.vectors@.len() ==> (#[trigger] self.vectors@[i]).1.wf()
        &&& match self.dim {
            Some(d) => d <= MAX_DIM && forall|i: int|
                0 <= i < self.vectors@.len() ==> (#[trigger] self.vectors@[i]).1.dim() == d,
            None => self.vectors@.len() == 0,
        }
    }

    /// Every stored vector is coordinate-bounded: the machine-limit part of
    /// well-formedness that similarity arithmetic needs.
    pub open spec fn vectors_wf(self) -> bool {
        forall|i: int| 0 <= i < self.vectors@.len() ==> (#[trigger] self.vectors@[i]).1.wf()
    }

    /// An empty store; the dimension is fixed by the first insertion.
    pub fn new() -> (s: MemoryStore)
        ensures
            s.wf(),
            s.vectors@.len() == 0,
            s.texts@.len() == 0,
            s.next_key == 0,
            s.dim is None,
    {
        MemoryStore { vectors: Vec::new(), texts: Vec::new(), next_key: 0, dim: None }
    }

    /// How many memories are stored.
    pub fn len(&self) -> (n: usize)
        ensures
            n == self.vectors@.len(),
    {
        self.vectors.len()
    }

    /// The text recorded under `key`, or nothing: the fallible lookup the
    /// read path uses instead of an unchecked access.
    pub fn lookup_text(&self, key: u64) -> (r: Option<String>)
        ensures
            r == find_text(self.texts@, key),
    {
        let n = self.texts.len();
        proof {
            assert(self.texts@.skip(0) =~= self.texts@);
        }
        let mut i: usize = 0;
        while i < n
            invariant
                0 <= i <= n,
                n == self.texts@.len(),
                find_text(self.texts@, key) == find_text(self.texts@.skip(i as int), key),
            decreases n - i,
        {
            proof {
                assert(self.texts@.skip(i as int)[0] == self.texts@[i as int]);
                assert(self.texts@.skip(i as int).skip(1) =~= self.texts@.skip(i + 1));
            }
            let entry = &self.texts[i];
            if entry.0 == key {
                return Some(entry.1.clone());
            }
            i = i + 1;
        }
        proof {
            assert(self.texts@.skip(n as int) =~= Seq::<(u64, String)>::empty());
        }
        None
    }
}

/// The character of one decimal digit.
pub open spec fn digit_char(d: nat) -> char {
    if d == 0 {
        '0'
    } else if d == 1 {
        '1'
    } else if d == 2 {
        '2'
    } else if d == 3 {
        '3'
    } else if d == 4 {
        '4'
    } else if d == 5 {
        '5'
    } else if d == 6 {
        '6'
    } else if d == 7 {
        '7'
    } else if d == 8 {
        '8'
    } else {
        '9'
    }
}

/// The decimal digits of `n`, most significant first.
pub open spec fn digits_spec(n: nat) -> Seq<char>
    decreases n,
{
    if n < 10 {
        seq![digit_char(n)]
    } else {
        digits_spec(n / 10).push(digit_char(n % 10))
    }
}

/// The outward name of the record with key `n`: the counter value under the
/// `user_info_` prefix.
pub open spec fn key_label_spec(n: nat) -> Seq<char> {
    seq!['u', 's', 'e', 'r', '_', 'i', 'n', 'f', 'o', '_'] + digits_spec(n)
}

fn append_digit(s: &mut String, d: u64)
    requires
        d < 10,
    ensures
        final(s)@ == old(s)@ + seq![digit_char(d as nat)],
{
    proof {
        reveal_strlit("0");
        reveal_strlit("1");
        reveal_strlit("2");
        reveal_strlit("3");
        reveal_strlit("4");
        reveal_strlit("5");
        reveal_strlit("6");
        reveal_strlit("7");
        reveal_strlit("8");
        reveal_strlit("9");
    }
    match d {
        0 => s.append("0"),
        1 => s.append("1"),
        2 => s.append("2"),
        3 => s.append("3"),
        4 => s.append("4"),
        5 => s.append("5"),
        6 => s.append("6"),
        7 => s.append("7"),
        8 => s.append("8"),
        _ => s.append("9"),
    }
    proof {
        assert(final(s)@ =~= old(s)@ + seq![digit_char(d as nat)]);
    }
}

fn append_digits(s: &mut String, m: u64)
    ensures
        final(s)@ == old(s)@ + digits_spec(m as nat),
    decreases m,
{
    if m < 10 {
        append_digit(s, m);
    } else {
        proof {
            assert(m / 10 < m) by (nonlinear_arith)
                requires
                    m >= 10,
            ;
        }
        append_digits(s, m / 10);
        append_digit(s, m % 10);
        proof {
            assert(old(s)@ + digits_spec((m / 10) as nat) + seq![digit_char((m % 10) as nat)]
                =~= old(s)@ + digits_spec(m as nat));
        }
    }
}

/// Renders a record key as its outward name, `user_info_<key>` in decimal.
pub fn key_label(key: u64) -> (r: String)
    ensures
        r@ == key_label_spec(key as nat),
{
    let mut s = String::new();
    s.append("user_info_");
    proof {
        reveal_strlit("user_info_");
        assert("user_info_"@ =~= seq!['u', 's', 'e', 'r', '_', 'i', 'n', 'f', 'o', '_']);
    }
    append_digits(&mut s, key);
    proof {
        assert(s@ =~= key_label_spec(key as nat));
    }
    s
}

/// The dimension every vector of a batch must have: the store's established
/// dimension, or for a first insertion the first vector's.
pub open spec fn batch_dim_ok(store_dim: Option<usize>, evs: Seq<Vector>) -> bool {
    evs.len() > 0 ==> {
        let d = match store_dim {
            Some(d) => d as int,
            None => evs[0].dim() as int,
        };
        forall|i: int| 0 <= i < evs.len() ==> (#[trigger] evs[i]).dim() == d
    }
}

impl MemoryStore {
    /// Inserts one batch of memories: the i-th chunk of text with the i-th
    /// vector, under keys minted consecutively from the shared counter, which
    /// advances by exactly the number of vectors — whether the embedder
    /// returned `One` or `Many`. All checks precede any write, so a rejected
    /// batch leaves the store untouched; on success both mappings grow
    /// together, atomically from the caller's point of view.
    #[verifier::loop_isolation(false)]
    pub fn add_memory(&mut self, chunks: &Vec<String>, embeddings: Embeddings) -> (r: Result<
        (),
        MemoryError,
    >)
        requires
            old(self).wf(),
            embeddings_wf(embeddings),
        ensures
            final(self).wf(),
            r is Ok <==> {
                let evs = embeddings_seq(embeddings);
                &&& evs.len() > 0
                &&& evs.len() == chunks@.len()
                &&& batch_dim_ok(old(self).dim, evs)
            },
            ({
                let evs = embeddings_seq(embeddings);
                let n = evs.len() as int;
                let base = old(self).next_key as int;
                match r {
                    Ok(()) => {
                        &&& final(self).vectors@ == old(self).vectors@ + Seq::new(
                            n as nat,
                            |j: int| (((base + j) as u64), evs[j]),
                        )
                        &&& final(self).texts@ == old(self).texts@ + Seq::new(
                            n as nat,
                            |j: int| (((base + j) as u64), chunks@[j]),
                        )
                        &&& final(self).next_key as int == base + n
                        &&& final(self).dim == (if old(self).dim is Some {
                            old(self).dim
                        } else {
                            Some(evs[0].dim() as usize)
                        })
                    },
                    Err(e) => {
                        &&& *final(self) == *old(self)
                        &&& (e == MemoryError::EmptyEmbeddingResult <==> n == 0)
                        &&& (e == MemoryError::UpstreamError <==> n > 0 && n != chunks@.len())
                        &&& (e == MemoryError::DimensionMismatch <==> n > 0 && n == chunks@.len()
                            && !batch_dim_ok(old(self).dim, evs))
                    },
                }
            }),
    {
        let ghost evs = embeddings_seq(embeddings);
        let mut vecs = generate_embeddings(embeddings);
        let n = vecs.len();
        if n == 0 {
            return Err(MemoryError::EmptyEmbeddingResult);
        }
        if n != chunks.len() {
            return Err(MemoryError::UpstreamError);
        }
        let d: usize = match self.dim {
            Some(d) => d,
            None => vecs[0].len(),
        };
        let mut i: usize = 0;
        while i < n
            invariant
                0 <= i <= n,
                n == vecs@.len(),
                vecs@ == evs,
                forall|j: int| 0 <= j < i ==> (#[trigger] evs[j]).dim() == d,
            decreases n - i,
        {
            if vecs[i].len() != d {
                proof {
                    assert(evs[i as int].dim() != d);
                    assert(!batch_dim_ok(old(self).dim, evs));
                }
                return Err(MemoryError::DimensionMismatch);
            }
            i = i + 1;
        }
        proof {
            assert(batch_dim_ok(old(self).dim, evs));
        }
        let ghost base = self.next_key as int;
        let ghost old_vectors = self.vectors@;
        let ghost old_texts = self.texts@;
        let mut i: usize = 0;
        while i < n
            invariant
                0 <= i <= n,
                n == chunks@.len(),
                vecs@ == evs.skip(i as int),
                evs.len() == n,
                base == old_vectors.len(),
                self.vectors@ == old_vectors + Seq::new(
                    i as nat,
                    |j: int| (((base + j) as u64), evs[j]),
                ),
                self.texts@ == old_texts + Seq::new(
                    i as nat,
                    |j: int| (((base + j) as u64), chunks@[j]),
                ),
                self.next_key as int == base,
                self.dim == old(self).dim,
            decreases n - i,
        {
            let key: u64 = self.vectors.len() as u64;
            let v = vecs.remove(0);
            proof {
                assert(evs.skip(i as int)[0] == evs[i as int]);
                assert(evs.skip(i as int).skip(1) =~= evs.skip(i + 1));
            }
            self.vectors.push((key, v));
            self.texts.push((key, chunks[i].clone()));
            proof {
                assert(self.vectors@ =~= old_vectors + Seq::new(
                    (i + 1) as nat,
                    |j: int| (((base + j) as u64), evs[j]),
                ));
                assert(self.texts@ =~= old_texts + Seq::new(
                    (i + 1) as nat,
                    |j: int| (((base + j) as u64), chunks@[j]),
                ));
            }
            i = i + 1;
        }
        self.next_key = self.vectors.len() as u64;
        self.dim = Some(d);
        proof {
            assert(forall|j: int|
                0 <= j < self.vectors@.len() ==> (#[trigger] self.vectors@[j]).0 as int == j);
            assert(forall|j: int|
                0 <= j < self.vectors@.len() ==> (#[trigger] self.vectors@[j]).1.wf());
            assert(forall|j: int|
                0 <= j < self.vectors@.len() ==> (#[trigger] self.vectors@[j]).1.dim() == d);
        }
        Ok(())
    }
}

/// Keys with later repeats removed: the first occurrence wins, order kept.
pub open spec fn dedup_keys(s: Seq<u64>) -> Seq<u64>
    decreases s.len(),
{
    if s.len() == 0 {
        Seq::empty()
    } else {
        let rest = dedup_keys(s.drop_last());
        if s.drop_last().contains(s.last()) {
            rest
        } else {
            rest.push(s.last())
        }
    }
}

proof fn lemma_dedup_keys_contains(s: Seq<u64>)
    ensures
        forall|k: u64| #[trigger] dedup_keys(s).contains(k) <==> s.contains(k),
    decreases s.len(),
{
    if s.len() > 0 {
        let s1 = s.drop_last();
        let x = s.last();
        lemma_dedup_keys_contains(s1);
        assert forall|k: u64| #[trigger] dedup_keys(s).contains(k) implies s.contains(k) by {
            if s1.contains(x) {
                assert(dedup_keys(s1).contains(k));
            } else {
                let i = choose|i: int| 0 <= i < dedup_keys(s).len() && dedup_keys(s)[i] == k;
                if i < dedup_keys(s1).len() {
                    assert(dedup_keys(s1).contains(k)) by {
                        assert(dedup_keys(s1)[i] == k);
                    }
                } else {
                    assert(k == x);
                    assert(s[s.len() - 1] == k);
                }
            }
            if s1.contains(k) {
                let i = choose|i: int| 0 <= i < s1.len() && s1[i] == k;
                assert(s[i] == k);
            } else if k == x {
                assert(s[s.len() - 1] == k);
            }
        }
        assert forall|k: u64| s.contains(k) implies #[trigger] dedup_keys(s).contains(k) by {
            let i = choose|i: int| 0 <= i < s.len() && s[i] == k;
            if i < s1.len() {
                assert(s1.contains(k)) by {
                    assert(s1[i] == k);
                }
                assert(dedup_keys(s1).contains(k));
                if !s1.contains(x) {
                    let j = choose|j: int| 0 <= j < dedup_keys(s1).len() && dedup_keys(s1)[j] == k;
                    assert(dedup_keys(s)[j] == k);
                }
            } else {
                assert(k == x);
                if s1.contains(x) {
                    assert(dedup_keys(s1).contains(k));
                } else {
                    assert(dedup_keys(s)[dedup_keys(s).len() - 1] == k);
                }
            }
        }
    }
}

/// The ranked keys of every query vector, concatenated in vector order, each
/// list cut to `k` before concatenation.
pub open spec fn multi_keys(svecs: Seq<(u64, Vector)>, evs: Seq<Vector>, k: int) -> Seq<u64>
    decreases evs.len(),
{
    if evs.len() == 0 {
        Seq::empty()
    } else {
        multi_keys(svecs, evs.drop_last(), k) + keys_of(top_k_spec(evs.last(), svecs, k))
    }
}

proof fn lemma_multi_keys_in_store(svecs: Seq<(u64, Vector)>, evs: Seq<Vector>, k: int)
    requires
        k >= 0,
    ensures
        forall|key: u64|
            #[trigger] multi_keys(svecs, evs, k).contains(key) ==> cand_has_key(svecs, key),
    decreases evs.len(),
{
    if evs.len() > 0 {
        let pre = multi_keys(svecs, evs.drop_last(), k);
        let tk = top_k_spec(evs.last(), svecs, k);
        lemma_multi_keys_in_store(svecs, evs.drop_last(), k);
        lemma_top_k_properties(evs.last(), svecs, k);
        assert forall|key: u64| #[trigger] multi_keys(svecs, evs, k).contains(key) implies
            cand_has_key(svecs, key) by {
            let i = choose|i: int|
                0 <= i < multi_keys(svecs, evs, k).len() && multi_keys(svecs, evs, k)[i] == key;
            if i < pre.len() {
                assert(pre.contains(key)) by {
                    assert(pre[i] == key);
                }
            } else {
                assert(keys_of(tk)[i - pre.len()] == key);
                assert(tk[i - pre.len()].0 == key);
                assert(has_key(tk, key));
            }
        }
    }
}

/// The keys retrieval resolves: ranked per query vector, concatenated,
/// deduplicated keeping first occurrences.
pub open spec fn retrieve_keys(store: MemoryStore, evs: Seq<Vector>, k: int) -> Seq<u64> {
    dedup_keys(multi_keys(store.vectors@, evs, k))
}

/// What retrieval returns: the text of every surviving key, in key order.
pub open spec fn retrieve_spec(store: MemoryStore, evs: Seq<Vector>, k: int) -> Seq<Seq<char>> {
    let ks = retrieve_keys(store, evs, k);
    Seq::new(ks.len(), |i: int| find_text(store.texts@, ks[i]).unwrap()@)
}

/// Every one of these keys has a text counterpart in the store.
pub open spec fn all_keys_resolve(store: MemoryStore, ks: Seq<u64>) -> bool {
    forall|i: int| 0 <= i < ks.len() ==> find_text(store.texts@, #[trigger] ks[i]) is Some
}

/// Law (round trip): every key that ranking returns against a well-formed
/// store resolves to a text value — ranked results cannot raise
/// `MissingText`.
pub proof fn lemma_top_k_resolves(store: MemoryStore, q: Vector, k: int)
    requires
        store.wf(),
        k >= 0,
    ensures
        forall|i: int|
            0 <= i < top_k_spec(q, store.vectors@, k).len() ==> find_text(
                store.texts@,
                (#[trigger] top_k_spec(q, store.vectors@, k)[i]).0,
            ) is Some,
{
    lemma_top_k_properties(q, store.vectors@, k);
    let tk = top_k_spec(q, store.vectors@, k);
    assert forall|i: int| 0 <= i < tk.len() implies find_text(store.texts@, tk[i].0) is Some by {
        assert(has_key(tk, tk[i].0)) by {
            assert(0 <= i < tk.len() && tk[i].0 == tk[i].0);
        }
        assert(cand_has_key(store.vectors@, tk[i].0));
        let w = choose|w: int| 0 <= w < store.vectors@.len() && store.vectors@[w].0 == tk[i].0;
        assert(tk[i].0 as int == w);
        lemma_find_text_indexed(store.texts@, 0, tk[i].0);
    }
}

/// Law: ranking against a well-formed store repeats no key — the store's
/// candidate keys are distinct, and the sort keeps them so.
pub proof fn lemma_top_k_store_no_dup(store: MemoryStore, q: Vector, k: int)
    requires
        store.wf(),
        k >= 0,
    ensures
        no_dup_keys(top_k_spec(q, store.vectors@, k)),
{
    lemma_scored_no_dup(q, store.vectors@);
    lemma_top_k_properties(q, store.vectors@, k);
}

/// Retrieves the most relevant stored texts for a query's embeddings.
///
/// For each query vector — the embedder may have returned one or many — the
/// store's candidates are ranked and cut to `top_n` keys; the per-vector key
/// lists are concatenated in vector order, repeated keys are dropped keeping
/// first occurrences, and each surviving key is resolved to its text through
/// the fallible lookup. An empty or under-filled store yields fewer or zero
/// texts — success, not an error. A ranked key without a text counterpart is
/// the fatal divergence of the two mappings: it is reported as
/// `MissingText`, never silently dropped; the store invariant proves it can
/// never arise from a well-formed store.
#[verifier::loop_isolation(false)]
pub fn retrieve_memory(
    store: &MemoryStore,
    query_embeddings: Embeddings,
    top_n: usize,
) -> (r: Result<Vec<String>, MemoryError>)
    requires
        store.vectors_wf(),
        embeddings_wf(query_embeddings),
    ensures
        ({
            let evs = embeddings_seq(query_embeddings);
            let ks = retrieve_keys(*store, evs, top_n as int);
            &&& (r == Err::<Vec<String>, MemoryError>(MemoryError::EmptyEmbeddingResult) <==> evs.len() == 0)
            &&& (evs.len() > 0 && all_keys_resolve(*store, ks) ==> (r matches Ok(texts)
                && texts@.map_values(|t: String| t@) == retrieve_spec(*store, evs, top_n as int)))
            &&& (evs.len() > 0 && !all_keys_resolve(*store, ks) ==> r == Err::<
                Vec<String>,
                MemoryError,
            >(MemoryError::MissingText))
            &&& (store.wf() ==> all_keys_resolve(*store, ks))
        }),
        store.wf() ==> (r is Ok <==> embeddings_seq(query_embeddings).len() > 0),
{
    let ghost evs = embeddings_seq(query_embeddings);
    proof {
        if store.wf() {
            lemma_multi_keys_in_store(store.vectors@, evs, top_n as int);
            lemma_dedup_keys_contains(multi_keys(store.vectors@, evs, top_n as int));
            let ks = retrieve_keys(*store, evs, top_n as int);
            assert forall|p: int| 0 <= p < ks.len() implies find_text(
                store.texts@,
                #[trigger] ks[p],
            ) is Some by {
                assert(ks.contains(ks[p]));
                assert(multi_keys(store.vectors@, evs, top_n as int).contains(ks[p]));
                assert(cand_has_key(store.vectors@, ks[p]));
                let w = choose|w: int| 0 <= w < store.vectors@.len() && store.vectors@[w].0 == ks[p];
                assert(ks[p] as int == w);
                lemma_find_text_indexed(store.texts@, 0, ks[p]);
            }
        }
    }
    let vecs = generate_embeddings(query_embeddings);
    if vecs.len() == 0 {
        return Err(MemoryError::EmptyEmbeddingResult);
    }
    let nv = vecs.len();
    let mut all_keys: Vec<u64> = Vec::new();
    let mut i: usize = 0;
    while i < nv
        invariant
            0 <= i <= nv,
            all_keys@ == multi_keys(store.vectors@, evs.take(i as int), top_n as int),
        decreases nv - i,
    {
        let ranked = top_k(&vecs[i], &store.vectors, top_n);
        let nr = ranked.len();
        let ghost before = all_keys@;
        let mut j: usize = 0;
        while j < nr
            invariant
                0 <= j <= nr,
                nr == ranked@.len(),
                all_keys@ == before + keys_of(ranked@).take(j as int),
            decreases nr - j,
        {
            all_keys.push(ranked[j].0);
            proof {
                assert(all_keys@ =~= before + keys_of(ranked@).take(j + 1));
            }
            j = j + 1;
        }
        proof {
            assert(keys_of(ranked@).take(nr as int) =~= keys_of(ranked@));
            assert(evs.take(i + 1).drop_last() =~= evs.take(i as int));
            assert(evs.take(i + 1).last() == evs[i as int]);
        }
        i = i + 1;
    }
    proof {
        assert(evs.take(nv as int) =~= evs);
    }
    let n = all_keys.len();
    let mut uniq: Vec<u64> = Vec::new();
    let mut i: usize = 0;
    while i < n
        invariant
            0 <= i <= n,
            uniq@ == dedup_keys(all_keys@.take(i as int)),
        decreases n - i,
    {
        let mut seen = false;
        let mut j: usize = 0;
        while j < i
            invariant
                0 <= j <= i,
                seen <==> exists|m: int|
                    0 <= m < j && (#[trigger] all_keys@[m]) == all_keys@[i as int],
            decreases i - j,
        {
            if all_keys[j] == all_keys[i] {
                seen = true;
            }
            j = j + 1;
        }
        proof {
            if seen {
                let m = choose|m: int| 0 <= m < i && (#[trigger] all_keys@[m]) == all_keys@[
                    i as int];
                assert(all_keys@.take(i as int)[m] == all_keys@[i as int]);
                assert(all_keys@.take(i as int).contains(all_keys@[i as int]));
            } else {
                if all_keys@.take(i as int).contains(all_keys@[i as int]) {
                    let m = choose|m: int|
                        0 <= m < i && all_keys@.take(i as int)[m] == all_keys@[i as int];
                    assert((all_keys@[m]) == all_keys@[i as int]);
                }
            }
            assert(all_keys@.take(i + 1).drop_last() =~= all_keys@.take(i as int));
            assert(all_keys@.take(i + 1).last() == all_keys@[i as int]);
        }
        if !seen {
            uniq.push(all_keys[i]);
        }
        i = i + 1;
    }
    proof {
        assert(all_keys@.take(n as int) =~= all_keys@);
    }
    let m = uniq.len();
    let mut out: Vec<String> = Vec::new();
    let mut i: usize = 0;
    while i < m
        invariant
            0 <= i <= m,
            out@.len() == i,
            forall|p: int| 0 <= p < i ==> find_text(store.texts@, #[trigger] uniq@[p]) is Some,
            forall|p: int|
                0 <= p < i ==> (#[trigger] out@[p])@ == find_text(store.texts@, uniq@[p]).unwrap()@,
        decreases m - i,
    {
        let key = uniq[i];
        match store.lookup_text(key) {
            Some(t) => {
                out.push(t);
            },
            None => {
                proof {
                    assert(uniq@[i as int] == key);
                    assert(!all_keys_resolve(*store, uniq@));
                }
                return Err(MemoryError::MissingText);
            },
        }
        i = i + 1;
    }
    proof {
        assert(out@.map_values(|t: String| t@) =~= retrieve_spec(*store, evs, top_n as int));
    }
    Ok(out)
}

} // verus!
