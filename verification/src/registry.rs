//! Registry builder and lookup index.
//!
//! `build` turns an ordered list of asset declarations, each already
//! paired with the outcome of reading its source, into an immutable
//! table of asset records sorted strictly by public name; `lookup`
//! binary-searches that table. Construction is all-or-nothing: an
//! unreadable source, a missing extension or a public-name collision
//! aborts the build and no registry is produced.

use vstd::prelude::*;
use crate::digest::digest;
use crate::order::lex_lt;
use crate::order::lemma_lex_lt_connected;
use crate::order::lemma_lex_lt_irreflexive;
use crate::order::lemma_lex_lt_transitive;
use crate::order::str_lt;
use crate::synth::BuildError;
use crate::synth::has_extension;
use crate::synth::spec_public_name;
use crate::synth::synthesize;

verus! {

broadcast use
    vstd::seq_lib::group_to_multiset_ensures,
    vstd::multiset::group_multiset_axioms,
;

/// An asset declaration together with the bytes its source path read
/// to, or `None` when the source was unreadable.
pub struct AssetInput {
    /// The declaration's symbolic name; it does not influence the
    /// derived public name.
    pub identifier: String,
    /// The declared source path.
    pub source_path: String,
    /// The declared MIME-like content type tag.
    pub content_type: String,
    /// The bytes read from `source_path`, or `None` if unreadable.
    pub content: Option<Vec<u8>>,
}

/// The mathematical value of an `AssetInput`.
pub struct AssetInputView {
    pub identifier: Seq<char>,
    pub source_path: Seq<char>,
    pub content_type: Seq<char>,
    pub content: Option<Seq<u8>>,
}

impl View for AssetInput {
    type V = AssetInputView;

    open spec fn view(&self) -> AssetInputView {
        AssetInputView {
            identifier: self.identifier@,
            source_path: self.source_path@,
            content_type: self.content_type@,
            content: match self.content {
                Some(c) => Some(c@),
                None => None,
            },
        }
    }
}

/// One asset as the registry holds it: its content bytes, its derived
/// public name, and its content type.
pub struct AssetRecord {
    /// The literal byte content of the source at build time.
    pub content: Vec<u8>,
    /// The derived public name, `"{stem}-{token}.{extension}"`.
    pub name: String,
    /// The declared MIME-like content type tag.
    pub content_type: String,
}

/// The mathematical value of an `AssetRecord`.
pub struct AssetRecordView {
    pub content: Seq<u8>,
    pub name: Seq<char>,
    pub content_type: Seq<char>,
}

impl View for AssetRecord {
    type V = AssetRecordView;

    open spec fn view(&self) -> AssetRecordView {
        AssetRecordView {
            content: self.content@,
            name: self.name@,
            content_type: self.content_type@,
        }
    }
}

/// The views of a sequence of inputs.
pub open spec fn views_of_inputs(inputs: Seq<AssetInput>) -> Seq<AssetInputView> {
    inputs.map_values(|a: AssetInput| a@)
}

/// The views of a sequence of records.
pub open spec fn views_of_records(records: Seq<AssetRecord>) -> Seq<AssetRecordView> {
    records.map_values(|r: AssetRecord| r@)
}

/// The error a single declaration runs into, if any: an unreadable
/// source is found when the content is read, before the name is
/// synthesized from the path.
pub open spec fn decl_error(d: AssetInputView) -> Option<BuildError> {
    if d.content is None {
        Some(BuildError::SourceUnreadable)
    } else if !has_extension(d.source_path) {
        Some(BuildError::NoExtension)
    } else {
        None
    }
}

/// The first per-declaration error, in declaration order.
pub open spec fn first_decl_error(ds: Seq<AssetInputView>) -> Option<BuildError>
    decreases ds.len(),
{
    if ds.len() == 0 {
        None
    } else if decl_error(ds[0]) is Some {
        decl_error(ds[0])
    } else {
        first_decl_error(ds.drop_first())
    }
}

/// The record a declaration derives: the content it read, the public
/// name synthesized from path and content digest, the declared type.
pub open spec fn spec_record_of(d: AssetInputView) -> AssetRecordView
    recommends
        d.content is Some,
{
    AssetRecordView {
        content: d.content->0,
        name: spec_public_name(d.source_path, d.content->0),
        content_type: d.content_type,
    }
}

/// The records a declaration list derives, in declaration order.
pub open spec fn derived_records(ds: Seq<AssetInputView>) -> Seq<AssetRecordView> {
    ds.map_values(|d: AssetInputView| spec_record_of(d))
}

/// No two records share a public name.
pub open spec fn distinct_names(rs: Seq<AssetRecordView>) -> bool {
    forall|i: int, j: int| 0 <= i < j < rs.len() ==> rs[i].name != rs[j].name
}

/// Public names are in strictly ascending lexicographic order.
pub open spec fn strictly_sorted(rs: Seq<AssetRecordView>) -> bool {
    forall|i: int, j: int| 0 <= i < j < rs.len() ==> lex_lt(rs[i].name, rs[j].name)
}

/// When the first `i` declarations are clean and the `i`-th errs, the
/// `i`-th error is the first.
proof fn lemma_first_decl_error_at(ds: Seq<AssetInputView>, i: int)
    requires
        0 <= i < ds.len(),
        forall|m: int| 0 <= m < i ==> decl_error(ds[m]) is None,
        decl_error(ds[i]) is Some,
    ensures
        first_decl_error(ds) == decl_error(ds[i]),
    decreases i,
{
    if i > 0 {
        lemma_first_decl_error_at(ds.drop_first(), i - 1);
    }
}

/// When every declaration is clean, there is no first error.
proof fn lemma_first_decl_error_none(ds: Seq<AssetInputView>)
    requires
        forall|m: int| 0 <= m < ds.len() ==> decl_error(ds[m]) is None,
    ensures
        first_decl_error(ds) is None,
    decreases ds.len(),
{
    if ds.len() > 0 {
        lemma_first_decl_error_none(ds.drop_first());
    }
}

/// A value at two distinct indices occurs at least twice in the
/// sequence's multiset.
proof fn lemma_dup_indices_count<A>(s: Seq<A>, i: int, j: int)
    requires
        0 <= i < j < s.len(),
        s[i] == s[j],
    ensures
        s.to_multiset().count(s[i]) >= 2,
{
    s.to_multiset_ensures();
    assert(s.remove(i).to_multiset() =~= s.to_multiset().remove(s[i]));
    s.remove(i).to_multiset_ensures();
    assert(s.remove(i)[j - 1] == s[j]);
    assert(s.remove(i).contains(s[i]));
    assert(s.remove(i).to_multiset().count(s[i]) > 0);
    assert(s.to_multiset().remove(s[i]).count(s[i]) > 0);
}

/// A value that occurs at least twice in the multiset stands at two
/// distinct indices.
proof fn lemma_count_two_indices<A>(s: Seq<A>, x: A)
    requires
        s.to_multiset().count(x) >= 2,
    ensures
        exists|i: int, j: int| 0 <= i < j < s.len() && s[i] == x && s[j] == x,
{
    s.to_multiset_ensures();
    assert(s.contains(x));
    let i = choose|i: int| 0 <= i < s.len() && s[i] == x;
    assert(s.remove(i).to_multiset() =~= s.to_multiset().remove(x));
    s.remove(i).to_multiset_ensures();
    assert(s.remove(i).to_multiset().count(x) >= 1);
    assert(s.remove(i).contains(x));
    let j0 = choose|j: int| 0 <= j < s.remove(i).len() && s.remove(i)[j] == x;
    if j0 < i {
        assert(s[j0] == x);
        assert(0 <= j0 < i < s.len() && s[j0] == x && s[i] == x);
    } else {
        assert(s[j0 + 1] == x);
        assert(0 <= i < j0 + 1 < s.len() && s[i] == x && s[j0 + 1] == x);
    }
}

/// The immutable registry: asset records sorted strictly by public
/// name. Built once by `build`; never mutated afterwards.
pub struct Registry {
    records: Vec<AssetRecord>,
}

impl View for Registry {
    type V = Seq<AssetRecordView>;

    closed spec fn view(&self) -> Seq<AssetRecordView> {
        views_of_records(self.records@)
    }
}

impl Registry {
    #[verifier::type_invariant]
    spec fn wf(self) -> bool {
        strictly_sorted(self@)
    }

    /// The number of records in the registry.
    pub fn len(&self) -> (n: usize)
        ensures
            n == self@.len(),
    {
        self.records.len()
    }

    /// The record at a position of the name-sorted table.
    pub fn record_at(&self, i: usize) -> (r: &AssetRecord)
        requires
            i < self@.len(),
        ensures
            r@ == self@[i as int],
    {
        &self.records[i]
    }

    /// Builds the registry from the declarations, in the order
    /// supplied. Every source is read before names are checked for
    /// collisions; any failure aborts the whole build, so no partial
    /// registry can be observed.
    #[verifier::loop_isolation(false)]
    pub fn build(inputs: Vec<AssetInput>) -> (r: Result<Registry, BuildError>)
        ensures
            (match first_decl_error(views_of_inputs(inputs@)) {
                Some(e) => r == Err::<Registry, BuildError>(e),
                None => {
                    let rv = derived_records(views_of_inputs(inputs@));
                    if distinct_names(rv) {
                        match r {
                            Ok(reg) => strictly_sorted(reg@) && reg@.len() == rv.len()
                                && reg@.to_multiset() == rv.to_multiset(),
                            Err(_) => false,
                        }
                    } else {
                        r == Err::<Registry, BuildError>(BuildError::NameCollision)
                    }
                },
            }),
    {
        let ghost input_seq = inputs@;
        let ghost ds = views_of_inputs(input_seq);
        let mut remaining = inputs;
        let mut recs: Vec<AssetRecord> = Vec::new();
        while remaining.len() > 0
            invariant
                ds == views_of_inputs(input_seq),
                ds.len() == input_seq.len(),
                recs@.len() + remaining@.len() == input_seq.len(),
                remaining@ == input_seq.skip(recs@.len() as int),
                views_of_records(recs@) == derived_records(ds).take(recs@.len() as int),
                forall|m: int| 0 <= m < recs@.len() ==> decl_error(ds[m]) is None,
            decreases remaining@.len(),
        {
            let ghost k = recs@.len() as int;
            let inp = remaining.remove(0);
            proof {
                assert(input_seq.skip(k).remove(0) =~= input_seq.skip(k + 1));
                assert(inp == input_seq.skip(k)[0]);
                assert(inp@ == ds[k]);
            }
            let ghost d = ds[k];
            let AssetInput { identifier: _, source_path, content_type, content } = inp;
            match content {
                None => {
                    proof {
                        lemma_first_decl_error_at(ds, k);
                    }
                    return Err(BuildError::SourceUnreadable);
                },
                Some(content_vec) => {
                    let token = digest(content_vec.as_slice());
                    match synthesize(source_path.as_str(), token.as_str()) {
                        Err(e) => {
                            proof {
                                lemma_first_decl_error_at(ds, k);
                            }
                            return Err(e);
                        },
                        Ok(name) => {
                            let rec = AssetRecord { content: content_vec, name, content_type };
                            proof {
                                assert(rec@ == spec_record_of(d));
                            }
                            recs.push(rec);
                            proof {
                                assert(views_of_records(recs@) =~= derived_records(ds).take(
                                    k + 1,
                                ));
                            }
                        },
                    }
                },
            }
        }
        let ghost rv = derived_records(ds);
        proof {
            lemma_first_decl_error_none(ds);
            assert(views_of_records(recs@) =~= rv);
        }
        let mut sorted_recs: Vec<AssetRecord> = Vec::new();
        proof {
            assert(views_of_records(recs@) =~= rv.skip(0));
            assert(views_of_records(sorted_recs@) =~= rv.take(0));
        }
        while recs.len() > 0
            invariant
                rv == derived_records(ds),
                rv.len() == ds.len(),
                first_decl_error(ds) is None,
                sorted_recs@.len() + recs@.len() == rv.len(),
                views_of_records(recs@) == rv.skip(sorted_recs@.len() as int),
                strictly_sorted(views_of_records(sorted_recs@)),
                views_of_records(sorted_recs@).to_multiset() == rv.take(
                    sorted_recs@.len() as int,
                ).to_multiset(),
            decreases recs@.len(),
        {
            let ghost p = sorted_recs@.len() as int;
            let ghost sv = views_of_records(sorted_recs@);
            let ghost recs_old = recs@;
            let rec = recs.remove(0);
            let ghost recv = rec@;
            proof {
                assert(views_of_records(recs_old)[0] == recs_old[0]@);
                assert(recv == rv[p]);
                recs_old.remove_ensures(0);
                assert forall|m: int| 0 <= m < recs@.len() implies views_of_records(recs@)[m]
                    == rv.skip(p + 1)[m] by {
                    assert(recs@[m] == recs_old[m + 1]);
                    assert(views_of_records(recs_old)[m + 1] == recs_old[m + 1]@);
                    assert(rv.skip(p)[m + 1] == rv[p + 1 + m]);
                }
                assert(views_of_records(recs@) =~= rv.skip(p + 1));
            }
            let mut pos: usize = 0;
            while pos < sorted_recs.len() && str_lt(sorted_recs[pos].name.as_str(),
                rec.name.as_str())
                invariant
                    pos <= sorted_recs@.len(),
                    sv == views_of_records(sorted_recs@),
                    recv == rec@,
                    forall|m: int| 0 <= m < pos ==> lex_lt(sv[m].name, recv.name),
                decreases sorted_recs@.len() - pos,
            {
                pos += 1;
            }
            if pos < sorted_recs.len() && sorted_recs[pos].name == rec.name {
                proof {
                    let x = sv[pos as int];
                    assert(sv.contains(x));
                    sv.to_multiset_ensures();
                    assert(sv.to_multiset().count(x) > 0);
                    rv.take(p).to_multiset_ensures();
                    assert(rv.take(p).contains(x));
                    let i = choose|i: int| 0 <= i < rv.take(p).len() && rv.take(p)[i] == x;
                    assert(rv[i] == x);
                    assert(rv[i].name == rv[p].name);
                    assert(!distinct_names(rv));
                }
                return Err(BuildError::NameCollision);
            }
            proof {
                if pos < sorted_recs@.len() {
                    assert(!lex_lt(sv[pos as int].name, recv.name));
                    assert(sv[pos as int].name != recv.name);
                    lemma_lex_lt_connected(sv[pos as int].name, recv.name);
                    assert(lex_lt(recv.name, sv[pos as int].name));
                }
            }
            sorted_recs.insert(pos, rec);
            proof {
                sv.insert_ensures(pos as int, recv);
                assert(views_of_records(sorted_recs@) =~= sv.insert(pos as int, recv));
                let sv2 = sv.insert(pos as int, recv);
                // the new table is still strictly sorted
                assert forall|i: int, j: int| 0 <= i < j < sv2.len() implies lex_lt(
                    sv2[i].name,
                    sv2[j].name,
                ) by {
                    if i < pos && j < pos {
                        assert(sv2[i] == sv[i] && sv2[j] == sv[j]);
                    } else if i < pos && j == pos {
                        assert(sv2[i] == sv[i] && sv2[j] == recv);
                    } else if i < pos && j > pos {
                        assert(sv2[i] == sv[i] && sv2[j] == sv[j - 1]);
                    } else if i == pos && j > pos {
                        assert(sv2[i] == recv && sv2[j] == sv[j - 1]);
                        if j - 1 > pos {
                            lemma_lex_lt_transitive(
                                recv.name,
                                sv[pos as int].name,
                                sv[j - 1].name,
                            );
                        }
                    } else {
                        assert(sv2[i] == sv[i - 1] && sv2[j] == sv[j - 1]);
                    }
                }
                // the new table holds exactly the first p + 1 records
                assert(sv2.remove(pos as int) =~= sv);
                sv2.to_multiset_ensures();
                assert(sv2.to_multiset().remove(recv) =~= sv.to_multiset());
                assert(sv2.contains(recv));
                assert(sv2.to_multiset().count(recv) > 0);
                assert(sv2.to_multiset() =~= sv.to_multiset().insert(recv));
                rv.take(p).to_multiset_ensures();
                assert(rv.take(p + 1) =~= rv.take(p).push(rv[p]));
                assert(rv.take(p).push(rv[p]).to_multiset() =~= rv.take(p).to_multiset().insert(
                    rv[p],
                ));
            }
        }
        proof {
            assert(rv.take(rv.len() as int) =~= rv);
            let sv = views_of_records(sorted_recs@);
            // every name occurring twice among the derived records would
            // stand at two places of the strictly sorted table
            assert forall|i: int, j: int| 0 <= i < j < rv.len() implies rv[i].name
                != rv[j].name by {
                if rv[i].name == rv[j].name {
                    sv.to_multiset_ensures();
                    rv.to_multiset_ensures();
                    if rv[i] == rv[j] {
                        lemma_dup_indices_count(rv, i, j);
                        lemma_count_two_indices(sv, rv[i]);
                        let (p, q) = choose|p: int, q: int|
                            0 <= p < q < sv.len() && sv[p] == rv[i] && sv[q] == rv[i];
                        lemma_lex_lt_irreflexive(rv[i].name);
                    } else {
                        assert(rv.contains(rv[i]));
                        assert(rv.to_multiset().count(rv[i]) > 0);
                        assert(sv.contains(rv[i]));
                        assert(rv.contains(rv[j]));
                        assert(rv.to_multiset().count(rv[j]) > 0);
                        assert(sv.contains(rv[j]));
                        let p = choose|p: int| 0 <= p < sv.len() && sv[p] == rv[i];
                        let q = choose|q: int| 0 <= q < sv.len() && sv[q] == rv[j];
                        assert(p != q);
                        lemma_lex_lt_irreflexive(rv[i].name);
                    }
                }
            }
        }
        Ok(Registry { records: sorted_recs })
    }

    /// Looks an asset record up by its exact public name. Absence is a
    /// normal outcome, not an error; the registry is never mutated.
    pub fn lookup<'a>(&'a self, name: &str) -> (r: Option<&'a AssetRecord>)
        ensures
            (match r {
                Some(rec) => rec@.name == name@ && self@.contains(rec@) && (forall|k: int|
                    0 <= k < self@.len() && self@[k].name == name@ ==> self@[k] == rec@),
                None => forall|k: int| 0 <= k < self@.len() ==> self@[k].name != name@,
            }),
    {
        proof {
            use_type_invariant(&*self);
        }
        let mut lo: usize = 0;
        let mut hi: usize = self.records.len();
        while lo < hi
            invariant
                lo <= hi <= self@.len(),
                strictly_sorted(self@),
                self@.len() == self.records@.len(),
                forall|k: int| 0 <= k < lo ==> lex_lt(self@[k].name, name@),
                forall|k: int| hi <= k < self@.len() ==> lex_lt(name@, self@[k].name),
            decreases hi - lo,
        {
            let mid = lo + (hi - lo) / 2;
            if str_lt(self.records[mid].name.as_str(), name) {
                proof {
                    assert forall|k: int| 0 <= k < mid + 1 implies lex_lt(
                        self@[k].name,
                        name@,
                    ) by {
                        if k < mid {
                            lemma_lex_lt_transitive(self@[k].name, self@[mid as int].name, name@);
                        }
                    }
                }
                lo = mid + 1;
            } else if str_lt(name, self.records[mid].name.as_str()) {
                proof {
                    assert forall|k: int| mid <= k < self@.len() implies lex_lt(
                        name@,
                        self@[k].name,
                    ) by {
                        if k > mid {
                            lemma_lex_lt_transitive(name@, self@[mid as int].name, self@[k].name);
                        }
                    }
                }
                hi = mid;
            } else {
                proof {
                    if self@[mid as int].name != name@ {
                        lemma_lex_lt_connected(self@[mid as int].name, name@);
                    }
                    assert forall|k: int|
                        0 <= k < self@.len() && self@[k].name == name@ implies self@[k]
                        == self@[mid as int] by {
                        if k != mid {
                            lemma_lex_lt_irreflexive(name@);
                        }
                    }
                    assert(self@.contains(self@[mid as int]));
                }
                return Some(&self.records[mid]);
            }
        }
        proof {
            assert forall|k: int| 0 <= k < self@.len() implies self@[k].name != name@ by {
                lemma_lex_lt_irreflexive(name@);
            }
        }
        None
    }
}

} // verus!
