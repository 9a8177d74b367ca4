//! Turning fetch outcomes into loaded lists. Retrieval itself is the
//! surrounding application's business; this module holds the loading
//! policy: a source whose fetch failed, or whose body parses to no
//! domain, is skipped, and never stops the sources after it.
use crate::domain_set::DomainSet;
use crate::parser::{parse_domains, parse_list};
use vstd::prelude::*;

verus! {

/// A loaded list: the identifier of its source and its set of
/// domains.
pub struct NamedDomainSet {
    pub name: String,
    pub domains: DomainSet,
}

impl NamedDomainSet {
    /// Every loaded list holds at least one domain.
    pub open spec fn inv(&self) -> bool {
        self.domains.inv() && self.domains@ != Set::<Seq<char>>::empty()
    }
}

impl View for NamedDomainSet {
    type V = (Seq<char>, Set<Seq<char>>);

    open spec fn view(&self) -> (Seq<char>, Set<Seq<char>>) {
        (self.name@, self.domains@)
    }
}

/// The views of a sequence of loaded lists.
pub open spec fn lists_view(ls: Seq<NamedDomainSet>) -> Seq<(Seq<char>, Set<Seq<char>>)> {
    ls.map_values(|l: NamedDomainSet| l@)
}

/// The lists that a sequence of fetch outcomes yields: an outcome
/// whose fetch failed (`None`), or whose body parses to no domain, is
/// skipped; the rest appear in order under their source identifier.
pub open spec fn collected(inputs: Seq<(Seq<char>, Option<Seq<char>>)>) -> Seq<
    (Seq<char>, Set<Seq<char>>),
>
    decreases inputs.len(),
{
    if inputs.len() == 0 {
        Seq::empty()
    } else {
        let head = match inputs[0].1 {
            Some(c) => if parse_domains(c) != Set::<Seq<char>>::empty() {
                seq![(inputs[0].0, parse_domains(c))]
            } else {
                Seq::empty()
            },
            None => Seq::empty(),
        };
        head + collected(inputs.drop_first())
    }
}

/// Builds the lists that the fetch outcomes yield, each source
/// independent of every other.
pub fn collect_lists(inputs: Vec<(String, Option<String>)>) -> (r: Vec<NamedDomainSet>)
    ensures
        lists_view(r@) == collected(inputs.deep_view()),
        forall|k: int| 0 <= k < r@.len() ==> (#[trigger] r@[k]).inv(),
{
    let ghost dv = inputs.deep_view();
    let mut out: Vec<NamedDomainSet> = Vec::new();
    let n = inputs.len();
    let mut k: usize = 0;
    proof {
        assert(dv.skip(0) =~= dv);
        assert(lists_view(out@) =~= Seq::<(Seq<char>, Set<Seq<char>>)>::empty());
    }
    while k < n
        invariant
            k <= n,
            n == inputs@.len(),
            dv == inputs.deep_view(),
            collected(dv) == lists_view(out@) + collected(dv.skip(k as int)),
            forall|m: int| 0 <= m < out@.len() ==> (#[trigger] out@[m]).inv(),
        decreases n - k,
    {
        let ghost before = out@;
        let ghost cur = dv.skip(k as int);
        proof {
            assert(cur[0] == dv[k as int]);
            assert(cur.drop_first() =~= dv.skip(k + 1 as int));
            assert(dv[k as int] == inputs@[k as int].deep_view());
            assert(dv[k as int].0 == inputs@[k as int].0@);
        }
        match &inputs[k].1 {
            Some(content) => {
                proof {
                    assert(dv[k as int].1 == Some(content@));
                }
                match parse_list(content.as_str()) {
                    Ok(ds) => {
                        let name = inputs[k].0.clone();
                        out.push(NamedDomainSet { name, domains: ds });
                        proof {
                            assert(lists_view(out@) =~= lists_view(before).push(
                                (dv[k as int].0, parse_domains(content@)),
                            ));
                        }
                    },
                    Err(_) => {},
                }
            },
            None => {
                proof {
                    assert(dv[k as int].1 is None);
                }
            },
        }
        proof {
            assert(collected(dv) =~= lists_view(out@) + collected(dv.skip(k + 1 as int)));
        }
        k = k + 1;
    }
    proof {
        assert(collected(dv.skip(n as int)) =~= Seq::<(Seq<char>, Set<Seq<char>>)>::empty());
        assert(lists_view(out@) =~= collected(dv));
    }
    out
}

} // verus!
