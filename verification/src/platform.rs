//! Which declared dependencies apply on the platform a graph is built for.

use vstd::prelude::*;

verus! {

/// One configuration value of a compiler target: a bare name such as
/// `unix`, or a key with its value such as `target_os = "linux"`.
#[derive(Debug, PartialEq, Eq)]
pub enum Cfg {
    Name(String),
    KeyPair(String, String),
}

/// A condition over the configuration values of a target.
#[derive(Debug, PartialEq, Eq)]
pub enum CfgExpr {
    Not(Box<CfgExpr>),
    All(Vec<CfgExpr>),
    Any(Vec<CfgExpr>),
    Value(Cfg),
}

/// The platforms a dependency is declared for: one target by name, or
/// every target whose configuration meets a condition.
#[derive(Debug, PartialEq, Eq)]
pub enum Platform {
    Name(String),
    Cfg(CfgExpr),
}

/// A configuration value as the contracts see it.
pub enum CfgView {
    Name(Seq<char>),
    KeyPair(Seq<char>, Seq<char>),
}

impl View for Cfg {
    type V = CfgView;

    open spec fn view(&self) -> CfgView {
        match self {
            Cfg::Name(n) => CfgView::Name(n@),
            Cfg::KeyPair(k, v) => CfgView::KeyPair(k@, v@),
        }
    }
}

impl DeepView for Cfg {
    type V = CfgView;

    open spec fn deep_view(&self) -> CfgView {
        self@
    }
}

/// Two configuration values are the same value.
pub open spec fn cfg_same(a: Cfg, b: Cfg) -> bool {
    a@ == b@
}

/// `c` is one of `cfgs`.
pub open spec fn cfg_listed(cfgs: Seq<Cfg>, c: Cfg) -> bool {
    exists|i: int| 0 <= i < cfgs.len() && cfg_same(#[trigger] cfgs[i], c)
}

/// `e` is true of a target whose configuration is `cfgs`.
pub open spec fn expr_holds(e: CfgExpr, cfgs: Seq<Cfg>) -> bool
    decreases e,
{
    match e {
        CfgExpr::Not(inner) => !expr_holds(*inner, cfgs),
        CfgExpr::All(es) => forall|i: int| 0 <= i < es@.len() ==> expr_holds(#[trigger] es@[i], cfgs),
        CfgExpr::Any(es) => exists|i: int| 0 <= i < es@.len() && expr_holds(#[trigger] es@[i], cfgs),
        CfgExpr::Value(c) => cfg_listed(cfgs, c),
    }
}

/// `p` covers the target named `target`, whose configuration is `cfgs`
/// where it is known. A condition is not met by an unknown configuration.
pub open spec fn platform_matches(p: Platform, target: Seq<char>, cfgs: Option<Seq<Cfg>>) -> bool {
    match p {
        Platform::Name(n) => n@ == target,
        Platform::Cfg(e) => match cfgs {
            Some(c) => expr_holds(e, c),
            None => false,
        },
    }
}

/// The platform filter: whether a dependency declared for `platform` counts
/// in a graph built for `target`.
///
/// A dependency declared for every platform always counts. A graph built
/// for no target in particular takes every dependency. Otherwise the
/// dependency counts where its platform covers the target.
pub open spec fn admits(
    platform: Option<Platform>,
    target: Option<Seq<char>>,
    cfgs: Option<Seq<Cfg>>,
) -> bool {
    match platform {
        None => true,
        Some(p) => match target {
            None => true,
            Some(t) => platform_matches(p, t, cfgs),
        },
    }
}

/// What [`expr_holds`] says of a conjunction and of a disjunction.
proof fn lemma_expr_holds_of_lists(es: Vec<CfgExpr>, cfgs: Seq<Cfg>)
    ensures
        expr_holds(CfgExpr::All(es), cfgs) == (forall|i: int|
            0 <= i < es@.len() ==> expr_holds(#[trigger] es@[i], cfgs)),
        expr_holds(CfgExpr::Any(es), cfgs) == (exists|i: int|
            0 <= i < es@.len() && expr_holds(#[trigger] es@[i], cfgs)),
{
    assert(CfgExpr::All(es)->All_0 == es);
    assert(CfgExpr::Any(es)->Any_0 == es);
}

/// A graph built for no target in particular takes every dependency,
/// whatever platform it is declared for.
pub proof fn lemma_no_target_admits_all(platform: Option<Platform>, cfgs: Option<Seq<Cfg>>)
    ensures
        admits(platform, None, cfgs),
{
}

/// A dependency declared for every platform counts on each.
pub proof fn lemma_no_platform_is_admitted(target: Option<Seq<char>>, cfgs: Option<Seq<Cfg>>)
    ensures
        admits(None, target, cfgs),
{
}

/// A dependency declared for the targets that list a configuration value
/// does not count on a target that does not list it.
pub proof fn lemma_unlisted_value_is_refused(c: Cfg, target: Seq<char>, cfgs: Seq<Cfg>)
    requires
        !cfg_listed(cfgs, c),
    ensures
        !admits(Some(Platform::Cfg(CfgExpr::Value(c))), Some(target), Some(cfgs)),
{
}

impl Cfg {
    /// Whether `self` and `other` are the same configuration value.
    pub fn same(&self, other: &Cfg) -> (res: bool)
        ensures
            res == cfg_same(*self, *other),
    {
        match self {
            Cfg::Name(x) => match other {
                Cfg::Name(y) => *x == *y,
                Cfg::KeyPair(_, _) => false,
            },
            Cfg::KeyPair(k, v) => match other {
                Cfg::Name(_) => false,
                Cfg::KeyPair(l, w) => *k == *l && *v == *w,
            },
        }
    }

    /// Whether `self` is one of `cfgs`.
    pub fn listed_in(&self, cfgs: &[Cfg]) -> (res: bool)
        ensures
            res == cfg_listed(cfgs@, *self),
    {
        let mut i: usize = 0;
        while i < cfgs.len()
            invariant
                i <= cfgs.len(),
                forall|k: int| 0 <= k < i ==> !cfg_same(#[trigger] cfgs@[k], *self),
            decreases cfgs.len() - i,
        {
            if cfgs[i].same(self) {
                return true;
            }
            i = i + 1;
        }
        false
    }
}

impl CfgExpr {
    /// Whether the condition is true of a target whose configuration is
    /// `cfgs`.
    pub fn matches(&self, cfgs: &[Cfg]) -> (res: bool)
        ensures
            res == expr_holds(*self, cfgs@),
        decreases self,
    {
        match self {
            CfgExpr::Not(inner) => !inner.matches(cfgs),
            CfgExpr::All(es) => {
                let mut i: usize = 0;
                while i < es.len()
                    invariant
                        i <= es.len(),
                        *self == CfgExpr::All(*es),
                        forall|k: int| 0 <= k < i ==> expr_holds(#[trigger] es@[k], cfgs@),
                    decreases es.len() - i,
                {
                    assert(decreases_to!(*self => es[i as int])) by {
                        assert(decreases_to!(*self => self->All_0));
                        assert(decreases_to!(*es => es[i as int]));
                    }
                    if !es[i].matches(cfgs) {
                        proof {
                            lemma_expr_holds_of_lists(*es, cfgs@);
                        }
                        return false;
                    }
                    i = i + 1;
                }
                proof {
                    lemma_expr_holds_of_lists(*es, cfgs@);
                }
                true
            },
            CfgExpr::Any(es) => {
                let mut i: usize = 0;
                while i < es.len()
                    invariant
                        i <= es.len(),
                        *self == CfgExpr::Any(*es),
                        forall|k: int| 0 <= k < i ==> !expr_holds(#[trigger] es@[k], cfgs@),
                    decreases es.len() - i,
                {
                    assert(decreases_to!(*self => es[i as int])) by {
                        assert(decreases_to!(*self => self->Any_0));
                        assert(decreases_to!(*es => es[i as int]));
                    }
                    if es[i].matches(cfgs) {
                        proof {
                            lemma_expr_holds_of_lists(*es, cfgs@);
                        }
                        return true;
                    }
                    i = i + 1;
                }
                proof {
                    lemma_expr_holds_of_lists(*es, cfgs@);
                }
                false
            },
            CfgExpr::Value(c) => c.listed_in(cfgs),
        }
    }
}

impl Platform {
    /// Whether the platform covers the target named `name`, whose
    /// configuration is `cfgs` where it is known.
    pub fn matches(&self, name: &String, cfgs: Option<&[Cfg]>) -> (res: bool)
        ensures
            res == platform_matches(
                *self,
                name@,
                match cfgs {
                    Some(c) => Some(c@),
                    None => None,
                },
            ),
    {
        match self {
            Platform::Name(n) => *n == *name,
            Platform::Cfg(e) => match cfgs {
                Some(c) => e.matches(c),
                None => false,
            },
        }
    }
}

/// The configuration as contracts read it.
pub open spec fn cfgs_view(cfgs: Option<&[Cfg]>) -> Option<Seq<Cfg>> {
    match cfgs {
        Some(c) => Some(c@),
        None => None,
    }
}

/// The target as contracts read it.
pub open spec fn target_view(target: Option<&String>) -> Option<Seq<char>> {
    match target {
        Some(t) => Some(t@),
        None => None,
    }
}

/// The platform filter. See [`admits`].
pub fn platform_admits(
    platform: Option<&Platform>,
    target: Option<&String>,
    cfgs: Option<&[Cfg]>,
) -> (res: bool)
    ensures
        res == admits(
            match platform {
                Some(p) => Some(*p),
                None => None,
            },
            target_view(target),
            cfgs_view(cfgs),
        ),
{
    match platform {
        None => true,
        Some(p) => match target {
            None => true,
            Some(t) => p.matches(t, cfgs),
        },
    }
}

} // verus!
