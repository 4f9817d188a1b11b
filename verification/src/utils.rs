//! File hashing and interface selection.

use vstd::prelude::*;
use vstd::multiset::Multiset;
use crate::FileHash;
use crate::errors::FloodFileError;

verus! {

broadcast use vstd::seq_lib::group_to_multiset_ensures, vstd::multiset::group_multiset_axioms;

/// The 16-byte MD5 digest of a path string. Stands for the output of
/// `md5::compute` on the string's bytes, which depends on the characters
/// alone.
pub uninterp spec fn md5_of(s: Seq<char>) -> Seq<u8>;

/// Relies on md5::compute: the digest is a function of the input bytes.
#[verifier::external_body]
fn md5_digest(name: &str) -> (r: FileHash)
    ensures
        r@ == md5_of(name@),
{
    md5::compute(name.as_bytes()).0
}

/// Computes the content-address identifier of an advertised path: the MD5
/// digest of the path string itself, not of the file's bytes. The
/// computation never fails; the `Result` is kept for callers that treat
/// hashing as fallible.
pub fn compute_filehash(name: &String) -> (r: Result<FileHash, FloodFileError>)
    ensures
        r is Ok,
        r.unwrap()@ == md5_of(name@),
{
    Ok(md5_digest(name.as_str()))
}

/// Hashing depends only on the path string: equal strings yield equal
/// hashes, in every session.
pub proof fn lemma_filehash_deterministic(a: Seq<char>, b: Seq<char>)
    requires
        a == b,
    ensures
        md5_of(a) == md5_of(b),
{
}

/// What the interface selection reads of a datalink interface: its name,
/// its MAC address if it has one, and how many IPs are assigned to it.
pub struct InterfaceInfo {
    pub name: String,
    pub mac: Option<[u8; 6]>,
    pub ip_count: usize,
}

/// Ghost image of an [`InterfaceInfo`].
pub ghost struct InterfaceModel {
    pub name: Seq<char>,
    pub mac: Option<Seq<u8>>,
    pub ip_count: usize,
}

impl View for InterfaceInfo {
    type V = InterfaceModel;

    open spec fn view(&self) -> InterfaceModel {
        InterfaceModel {
            name: self.name@,
            mac: match self.mac {
                Some(m) => Some(m@),
                None => None,
            },
            ip_count: self.ip_count,
        }
    }
}

/// An interface is usable when it has a MAC address and at least one
/// assigned IP; IP presence is the heuristic for a link being up.
pub open spec fn spec_usable(m: InterfaceModel) -> bool {
    m.mac is Some && m.ip_count > 0
}

/// The views of a sequence of interface records, in order.
pub open spec fn spec_iviews(vs: Seq<InterfaceInfo>) -> Seq<InterfaceModel> {
    Seq::new(vs.len(), |j: int| vs[j]@)
}

/// [`spec_usable`] as a value, for use with `Seq::filter`.
pub open spec fn spec_usable_pred() -> spec_fn(InterfaceModel) -> bool {
    |m: InterfaceModel| spec_usable(m)
}

/// Retains the usable interfaces and orders them by assigned-IP count,
/// most first; the head is the default bind target.
pub fn usable_interfaces(all: Vec<InterfaceInfo>) -> (r: Vec<InterfaceInfo>)
    ensures
        forall|j: int| 0 <= j < r@.len() ==> spec_usable(#[trigger] r@[j]@),
        forall|j: int, k: int| 0 <= j < k < r@.len() ==> r@[j]@.ip_count >= r@[k]@.ip_count,
        spec_iviews(r@).to_multiset()
            == spec_iviews(all@).filter(spec_usable_pred()).to_multiset(),
{
    let ghost orig = all@;
    
    let mut rest = all;
    let mut kept: Vec<InterfaceInfo> = Vec::new();
    let ghost mut k: int = 0;
    proof {
        assert(orig.take(0) =~= Seq::<InterfaceInfo>::empty());
        assert(spec_iviews(orig.take(0)) =~= Seq::<InterfaceModel>::empty());
        assert(spec_iviews(kept@) =~= spec_iviews(orig.take(0)).filter(spec_usable_pred()));
        assert(rest@ =~= orig.skip(0));
    }
    while rest.len() > 0
        invariant
            0 <= k <= orig.len(),
            rest@ =~= orig.skip(k),
            spec_iviews(kept@) =~= spec_iviews(orig.take(k)).filter(spec_usable_pred()),
            forall|j: int| 0 <= j < kept@.len() ==> spec_usable(#[trigger] kept@[j]@),
        decreases rest@.len(),
    {
        let ghost prev_kept = kept@;
        let x = rest.remove(0);
        let usable = x.mac.is_some() && x.ip_count > 0;
        if usable {
            kept.push(x);
        }
        proof {
            reveal_with_fuel(Seq::<_>::filter, 2);
            assert(x@ == orig[k]@);
            let prefix = spec_iviews(orig.take(k));
            let pv = spec_iviews(orig.take(k + 1));
            assert(pv.drop_last() =~= prefix);
            assert(pv.last() == orig[k]@);
            assert(pv.filter(spec_usable_pred()) == if spec_usable_pred()(pv.last()) {
                pv.drop_last().filter(spec_usable_pred()).push(pv.last())
            } else {
                pv.drop_last().filter(spec_usable_pred())
            });
            assert(spec_usable(x@) == usable);
            assert(spec_usable_pred()(x@) == spec_usable(x@));
            if usable {
                assert(spec_iviews(kept@) =~= spec_iviews(prev_kept).push(x@));
                assert(spec_iviews(kept@) =~= pv.filter(spec_usable_pred()));
            } else {
                assert(spec_iviews(kept@) =~= pv.filter(spec_usable_pred()));
            }
            assert(rest@ =~= orig.skip(k + 1));
            k = k + 1;
        }
    }
    proof {
        assert(orig.take(orig.len() as int) =~= orig);
    }
    let ghost m0 = spec_iviews(kept@).to_multiset();

    let mut out: Vec<InterfaceInfo> = Vec::new();
    while kept.len() > 0
        invariant
            forall|j: int| 0 <= j < kept@.len() ==> spec_usable(#[trigger] kept@[j]@),
            forall|j: int| 0 <= j < out@.len() ==> spec_usable(#[trigger] out@[j]@),
            forall|j: int, l: int| 0 <= j < l < out@.len()
                ==> out@[j]@.ip_count >= out@[l]@.ip_count,
            forall|j: int, l: int| 0 <= j < out@.len() && 0 <= l < kept@.len()
                ==> out@[j]@.ip_count >= kept@[l]@.ip_count,
            spec_iviews(out@).to_multiset().add(spec_iviews(kept@).to_multiset()) =~= m0,
        decreases kept@.len(),
    {
        let mut best: usize = 0;
        let mut j: usize = 1;
        while j < kept.len()
            invariant
                0 <= best < kept@.len(),
                best < j,
                1 <= j,
                forall|l: int| 0 <= l < j && l < kept@.len()
                    ==> kept@[l]@.ip_count <= kept@[best as int]@.ip_count,
            decreases kept@.len() - j,
        {
            if kept[j].ip_count > kept[best].ip_count {
                best = j;
            }
            j = j + 1;
        }
        let ghost prev_kept = kept@;
        let ghost prev_out = out@;
        let x = kept.remove(best);
        out.push(x);
        proof {
            assert(x@ == prev_kept[best as int]@);
            assert(spec_iviews(kept@) =~= spec_iviews(prev_kept).remove(best as int));
            assert(spec_iviews(out@) =~= spec_iviews(prev_out).push(x@));
            assert(spec_iviews(prev_kept)[best as int] == x@);
            assert(spec_iviews(kept@).to_multiset()
                =~= spec_iviews(prev_kept).to_multiset().remove(x@));
            assert(spec_iviews(out@).to_multiset()
                =~= spec_iviews(prev_out).to_multiset().insert(x@));
            assert(spec_iviews(prev_kept).to_multiset().count(x@) >= 1);
            assert(spec_iviews(out@).to_multiset().add(spec_iviews(kept@).to_multiset())
                =~= spec_iviews(prev_out).to_multiset().add(spec_iviews(prev_kept).to_multiset()));
        }
    }
    proof {
        assert(spec_iviews(kept@).to_multiset() =~= Multiset::<InterfaceModel>::empty());
        assert(spec_iviews(out@).to_multiset().add(Multiset::<InterfaceModel>::empty())
            =~= spec_iviews(out@).to_multiset());
    }
    out
}

} // verus!
