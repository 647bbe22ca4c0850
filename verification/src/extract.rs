//! Document reference extraction: the exact, case-sensitive lookup of
//! the well-known `documentId` key inside an envelope's variables.

use vstd::prelude::*;
use crate::codec::{EnvelopeView, RequestEnvelope, VarValue, VarValueView, string_chars};

verus! {

/// The well-known variables key that carries a document reference.
pub open spec fn doc_key() -> Seq<char> {
    seq!['d', 'o', 'c', 'u', 'm', 'e', 'n', 't', 'I', 'd']
}

/// The value under the last `documentId` entry, if any. Later entries
/// shadow earlier ones, as in a mapping built by repeated insertion.
pub open spec fn find_doc(entries: Seq<(Seq<char>, VarValueView)>) -> Option<VarValueView>
    decreases entries.len(),
{
    if entries.len() == 0 {
        None
    } else {
        match find_doc(entries.drop_first()) {
            Some(v) => Some(v),
            None => if entries[0].0 == doc_key() {
                Some(entries[0].1)
            } else {
                None
            },
        }
    }
}

/// The document reference of an envelope: present exactly when the
/// variables hold a `documentId` entry whose value is a non-empty
/// string.
pub open spec fn spec_extract(e: EnvelopeView) -> Option<Seq<char>> {
    match e.variables {
        None => None,
        Some(entries) => match find_doc(entries) {
            Some(VarValueView::Text(s)) => if s.len() > 0 {
                Some(s)
            } else {
                None
            },
            _ => None,
        },
    }
}

/// One more entry at the end of the variables shadows the rest.
proof fn lemma_find_doc_snoc(a: Seq<(Seq<char>, VarValueView)>, x: (Seq<char>, VarValueView))
    ensures
        find_doc(a.push(x)) == if x.0 == doc_key() {
            Some(x.1)
        } else {
            find_doc(a)
        },
    decreases a.len(),
{
    if a.len() == 0 {
        assert(a.push(x).len() == 1);
        assert(a.push(x)[0] == x);
        assert(a.push(x).drop_first() =~= Seq::<(Seq<char>, VarValueView)>::empty());
    } else {
        assert(a.push(x)[0] == a[0]);
        assert(a.push(x).drop_first() =~= a.drop_first().push(x));
        lemma_find_doc_snoc(a.drop_first(), x);
    }
}

/// Whether the characters spell the key `documentId`.
fn is_doc_key(k: &Vec<char>) -> (r: bool)
    ensures
        r == (k@ == doc_key()),
{
    if k.len() != 10 {
        return false;
    }
    let r = k[0] == 'd' && k[1] == 'o' && k[2] == 'c' && k[3] == 'u' && k[4] == 'm' && k[5] == 'e'
        && k[6] == 'n' && k[7] == 't' && k[8] == 'I' && k[9] == 'd';
    proof {
        if r {
            assert(k@ =~= doc_key());
        }
    }
    r
}

/// Extracts the document reference from an envelope, returning it
/// exactly when the variables hold a `documentId` entry whose value is
/// a non-empty string.
pub fn extract_document_id(e: &RequestEnvelope) -> (r: Option<String>)
    ensures
        match r {
            Some(id) => spec_extract(e@) == Some(id@) && id@.len() > 0,
            None => spec_extract(e@) is None,
        },
{
    let entries = match &e.variables {
        None => {
            return None;
        },
        Some(entries) => entries,
    };
    let ghost ev = entries@.map_values(|p: (String, VarValue)| (p.0@, p.1@));
    proof {
        assert(e.variables is Some);
    }
    let mut i: usize = entries.len();
    proof {
        assert(ev.take(ev.len() as int) =~= ev);
    }
    while i > 0
        invariant
            0 <= i <= entries@.len(),
            e.variables is Some,
            entries@ == e.variables->Some_0@,
            ev == entries@.map_values(|p: (String, VarValue)| (p.0@, p.1@)),
            ev.len() == entries@.len(),
            find_doc(ev) == find_doc(ev.take(i as int)),
        decreases i,
    {
        i -= 1;
        let kc = string_chars(entries[i].0.as_str());
        proof {
            assert(ev[i as int] == (entries@[i as int].0@, entries@[i as int].1@));
            lemma_find_doc_snoc(ev.take(i as int), ev[i as int]);
            assert(ev.take(i as int).push(ev[i as int]) =~= ev.take(i as int + 1));
        }
        if is_doc_key(&kc) {
            proof {
                assert(ev[i as int].0 == entries@[i as int].0@);
                assert(ev[i as int].0 == doc_key());
                assert(find_doc(ev.take(i as int + 1)) == Some(ev[i as int].1));
                assert(find_doc(ev) == Some(ev[i as int].1));
                let w = e@.variables->Some_0;
                assert(w.len() == ev.len());
                assert forall|x: int| 0 <= x < ev.len() implies w[x] == ev[x] by {
                    assert(w[x] == (entries@[x].0@, entries@[x].1@));
                    assert(ev[x] == (entries@[x].0@, entries@[x].1@));
                }
                assert(w =~= ev);
                assert(e@.variables == Some(ev));
            }
            match &entries[i].1 {
                VarValue::Text(s) => {
                    proof {
                        assert(ev[i as int].1 == VarValueView::Text(s@));
                    }
                    if s.as_str().is_empty() {
                        proof {
                            assert(spec_extract(e@) is None);
                        }
                        return None;
                    }
                    return Some(s.clone());
                },
                VarValue::Raw(_) => {
                    proof {
                        assert(spec_extract(e@) is None);
                    }
                    return None;
                },
            }
        }
    }
    proof {
        assert(ev.take(0) =~= Seq::<(Seq<char>, VarValueView)>::empty());
    }
    None
}

} // verus!
