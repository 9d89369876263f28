use vstd::prelude::*;
use crate::engine::Algorithm;
use crate::error::{decimal, decimal_text};
use crate::learner::Constraint;
use crate::stabsel::StabselMode;

verus! {

/// Distribution families that can be chosen by name.
#[derive(Debug, Clone, Copy, PartialEq, Eq, Structural)]
pub enum PyFamily {
    /// The normal distribution.
    Gaussian,
    /// The binomial proportions.
    Binomial,
    /// The beta distribution on the unit interval.
    Beta,
    /// The Weibull distribution.
    Weibull,
    /// The log-normal distribution.
    LogNormal,
    /// The zero-inflated Poisson counts.
    Zip,
    /// The generalised extreme value distribution.
    Gev,
    /// The Johnson's SU distribution.
    Jsu,
    /// The Burr type XII distribution.
    Burr12,
    /// The gamma distribution.
    Gamma,
    /// The generalised error distribution.
    Ged,
    /// The generalised Pareto distribution.
    Gpd,
    /// The inverse Gaussian distribution.
    InverseGaussian,
    /// The log-logistic distribution.
    LogLogistic,
    /// The negative binomial counts.
    NBinomial,
    /// The normal-inverse Gaussian distribution.
    Nig,
    /// The Poisson counts.
    Poisson,
    /// The Student's t distribution.
    StudentT,
    /// The multinomial class probabilities.
    Multinomial,
}

/// Every family, in the order in which a name is matched against them. No
/// two families share a name, so the order does not change the outcome.
pub open spec fn all_families() -> Seq<PyFamily> {
    seq![
        PyFamily::Beta,
        PyFamily::Binomial,
        PyFamily::Burr12,
        PyFamily::Gamma,
        PyFamily::Gaussian,
        PyFamily::Ged,
        PyFamily::Gev,
        PyFamily::Gpd,
        PyFamily::InverseGaussian,
        PyFamily::Jsu,
        PyFamily::LogLogistic,
        PyFamily::LogNormal,
        PyFamily::Multinomial,
        PyFamily::NBinomial,
        PyFamily::Nig,
        PyFamily::Poisson,
        PyFamily::StudentT,
        PyFamily::Weibull,
        PyFamily::Zip,
    ]
}

/// The upper-case name of a family.
pub open spec fn upper_name(f: PyFamily) -> Seq<char> {
    match f {
        PyFamily::Beta => "BetaLSS"@,
        PyFamily::Binomial => "BinomialLSS"@,
        PyFamily::Burr12 => "BURR12LSS"@,
        PyFamily::Gamma => "GAMMALSS"@,
        PyFamily::Gaussian => "GaussianLSS"@,
        PyFamily::Ged => "GEDLSS"@,
        PyFamily::Gev => "GEVLSS"@,
        PyFamily::Gpd => "GPDLSS"@,
        PyFamily::InverseGaussian => "INVERSEGAUSSIANLSS"@,
        PyFamily::Jsu => "JSULSS"@,
        PyFamily::LogLogistic => "LOGLOGISTICLSS"@,
        PyFamily::LogNormal => "LogNormalLSS"@,
        PyFamily::Multinomial => "MULTINOMIAL"@,
        PyFamily::NBinomial => "NBINOMIALLSS"@,
        PyFamily::Nig => "NIGLSS"@,
        PyFamily::Poisson => "POISSONLSS"@,
        PyFamily::StudentT => "STUDENTTLSS"@,
        PyFamily::Weibull => "WeibullLSS"@,
        PyFamily::Zip => "ZIPLSS"@,
    }
}

/// The mixed-case name of a family.
pub open spec fn mixed_name(f: PyFamily) -> Seq<char> {
    match f {
        PyFamily::Beta => "BetaLss"@,
        PyFamily::Binomial => "BinomialLss"@,
        PyFamily::Burr12 => "Burr12Lss"@,
        PyFamily::Gamma => "GammaLss"@,
        PyFamily::Gaussian => "GaussianLss"@,
        PyFamily::Ged => "GedLss"@,
        PyFamily::Gev => "GEVLss"@,
        PyFamily::Gpd => "GpdLss"@,
        PyFamily::InverseGaussian => "InverseGaussianLss"@,
        PyFamily::Jsu => "JSULss"@,
        PyFamily::LogLogistic => "LogLogisticLss"@,
        PyFamily::LogNormal => "LogNormalLss"@,
        PyFamily::Multinomial => "Multinomial"@,
        PyFamily::NBinomial => "NBinomialLss"@,
        PyFamily::Nig => "NigLss"@,
        PyFamily::Poisson => "PoissonLss"@,
        PyFamily::StudentT => "StudentTLss"@,
        PyFamily::Weibull => "WeibullLss"@,
        PyFamily::Zip => "ZIPLss"@,
    }
}

/// The third name that the three-letter families also answer to.
pub open spec fn short_name(f: PyFamily) -> Option<Seq<char>> {
    match f {
        PyFamily::Gev => Some("GevLss"@),
        PyFamily::Jsu => Some("JsuLss"@),
        PyFamily::Zip => Some("ZipLss"@),
        _ => None,
    }
}

/// The names a family answers to.
pub open spec fn family_names(f: PyFamily) -> Seq<Seq<char>> {
    match short_name(f) {
        Some(s) => seq![upper_name(f), mixed_name(f), s],
        None => seq![upper_name(f), mixed_name(f)],
    }
}

/// The first family at position `i` or later of `all_families()` that
/// answers to `name`.
pub open spec fn family_from(name: Seq<char>, i: nat) -> Option<PyFamily>
    decreases all_families().len() - i,
{
    if i >= all_families().len() {
        None
    } else if family_names(all_families()[i as int]).contains(name) {
        Some(all_families()[i as int])
    } else {
        family_from(name, i + 1)
    }
}

/// The family that `name` selects, if any.
pub open spec fn family_of_name(name: Seq<char>) -> Option<PyFamily> {
    family_from(name, 0)
}

/// Whether a family is recorded under its upper-case name rather than its
/// mixed-case one.
pub open spec fn recorded_upper(f: PyFamily) -> bool {
    match f {
        PyFamily::Beta => true,
        PyFamily::Binomial => true,
        PyFamily::Gaussian => true,
        PyFamily::Gev => true,
        PyFamily::Jsu => true,
        PyFamily::LogNormal => true,
        PyFamily::Weibull => true,
        PyFamily::Zip => true,
        _ => false,
    }
}

/// The name a family is recorded under when it is stored. The multinomial
/// family is recorded under a name it does not answer to.
pub open spec fn recorded_name(f: PyFamily) -> Seq<char> {
    if f == PyFamily::Multinomial {
        "MultinomialLss"@
    } else if recorded_upper(f) {
        upper_name(f)
    } else {
        mixed_name(f)
    }
}

/// Every family, in matching order.
fn families() -> (r: Vec<PyFamily>)
    ensures
        r@ == all_families(),
{
    let r = vec![
        PyFamily::Beta,
        PyFamily::Binomial,
        PyFamily::Burr12,
        PyFamily::Gamma,
        PyFamily::Gaussian,
        PyFamily::Ged,
        PyFamily::Gev,
        PyFamily::Gpd,
        PyFamily::InverseGaussian,
        PyFamily::Jsu,
        PyFamily::LogLogistic,
        PyFamily::LogNormal,
        PyFamily::Multinomial,
        PyFamily::NBinomial,
        PyFamily::Nig,
        PyFamily::Poisson,
        PyFamily::StudentT,
        PyFamily::Weibull,
        PyFamily::Zip,
    ];
    assert(r@ =~= all_families());
    r
}

/// The upper-case name of `f`.
fn upper_name_of(f: PyFamily) -> (r: &'static str)
    ensures
        r@ == upper_name(f),
{
    match f {
        PyFamily::Beta => "BetaLSS",
        PyFamily::Binomial => "BinomialLSS",
        PyFamily::Burr12 => "BURR12LSS",
        PyFamily::Gamma => "GAMMALSS",
        PyFamily::Gaussian => "GaussianLSS",
        PyFamily::Ged => "GEDLSS",
        PyFamily::Gev => "GEVLSS",
        PyFamily::Gpd => "GPDLSS",
        PyFamily::InverseGaussian => "INVERSEGAUSSIANLSS",
        PyFamily::Jsu => "JSULSS",
        PyFamily::LogLogistic => "LOGLOGISTICLSS",
        PyFamily::LogNormal => "LogNormalLSS",
        PyFamily::Multinomial => "MULTINOMIAL",
        PyFamily::NBinomial => "NBINOMIALLSS",
        PyFamily::Nig => "NIGLSS",
        PyFamily::Poisson => "POISSONLSS",
        PyFamily::StudentT => "STUDENTTLSS",
        PyFamily::Weibull => "WeibullLSS",
        PyFamily::Zip => "ZIPLSS",
    }
}

/// The mixed-case name of `f`.
fn mixed_name_of(f: PyFamily) -> (r: &'static str)
    ensures
        r@ == mixed_name(f),
{
    match f {
        PyFamily::Beta => "BetaLss",
        PyFamily::Binomial => "BinomialLss",
        PyFamily::Burr12 => "Burr12Lss",
        PyFamily::Gamma => "GammaLss",
        PyFamily::Gaussian => "GaussianLss",
        PyFamily::Ged => "GedLss",
        PyFamily::Gev => "GEVLss",
        PyFamily::Gpd => "GpdLss",
        PyFamily::InverseGaussian => "InverseGaussianLss",
        PyFamily::Jsu => "JSULss",
        PyFamily::LogLogistic => "LogLogisticLss",
        PyFamily::LogNormal => "LogNormalLss",
        PyFamily::Multinomial => "Multinomial",
        PyFamily::NBinomial => "NBinomialLss",
        PyFamily::Nig => "NigLss",
        PyFamily::Poisson => "PoissonLss",
        PyFamily::StudentT => "StudentTLss",
        PyFamily::Weibull => "WeibullLss",
        PyFamily::Zip => "ZIPLss",
    }
}

/// The third name of `f`, if it has one.
fn short_name_of(f: PyFamily) -> (r: Option<&'static str>)
    ensures
        r is Some <==> short_name(f) is Some,
        r matches Some(s) ==> short_name(f) == Some(s@),
{
    match f {
        PyFamily::Gev => Some("GevLss"),
        PyFamily::Jsu => Some("JsuLss"),
        PyFamily::Zip => Some("ZipLss"),
        _ => None,
    }
}

/// Whether `f` answers to `name`.
fn answers_to(f: PyFamily, name: &str) -> (r: bool)
    ensures
        r == family_names(f).contains(name@),
{
    let hit = same_text(name, upper_name_of(f)) || same_text(name, mixed_name_of(f)) || match short_name_of(f) {
        Some(s) => same_text(name, s),
        None => false,
    };
    proof {
        let names = family_names(f);
        if hit {
            if name@ == upper_name(f) {
                assert(names[0] == name@);
            } else if name@ == mixed_name(f) {
                assert(names[1] == name@);
            } else {
                assert(names[2] == name@);
            }
        } else {
            assert forall|k: int| 0 <= k < names.len() implies names[k] != name@ by {}
        }
    }
    hit
}

/// Whether two strings hold the same characters.
fn same_text(a: &str, b: &str) -> (r: bool)
    ensures
        r == (a@ == b@),
{
    String::from_str(a) == String::from_str(b)
}

impl PyFamily {
    /// The family called `name`; fails with `Unknown family: <name>` for any
    /// other name.
    pub fn new(name: &str) -> (r: Result<PyFamily, String>)
        ensures
            r is Ok <==> family_of_name(name@) is Some,
            r matches Ok(f) ==> family_of_name(name@) == Some(f),
            r matches Err(msg) ==> msg@ == "Unknown family: "@ + name@,
            r matches Ok(f) ==> documented_names(f).contains(name@),
            forall|f: PyFamily| #[trigger] documented_names(f).contains(name@) ==> r == Ok::<PyFamily, String>(f),
    {
        proof {
            assert forall|f: PyFamily| #[trigger] documented_names(f).contains(name@) implies family_of_name(name@) == Some(f) by {
                law_family_aliases(f, name@);
            }
            if family_of_name(name@) is Some {
                law_family_aliases(family_of_name(name@)->0, name@);
                assert(documented_names(family_of_name(name@)->0).contains(name@));
            }
        }
        let fams = families();
        let mut i: usize = 0;
        while i < fams.len()
            invariant
                fams@ == all_families(),
                i <= fams@.len(),
                forall|f: PyFamily| #[trigger] documented_names(f).contains(name@) ==> family_of_name(name@) == Some(f),
                family_of_name(name@) matches Some(g) ==> documented_names(g).contains(name@),
                family_of_name(name@) == family_from(name@, i as nat),
            decreases fams@.len() - i,
        {
            if answers_to(fams[i], name) {
                return Ok(fams[i]);
            }
            i = i + 1;
        }
        let mut msg = String::from_str("Unknown family: ");
        msg.append(name);
        Err(msg)
    }

    /// The name the family is recorded under, from which `new` rebuilds it.
    pub fn __getnewargs__(&self) -> (r: &'static str)
        ensures
            r@ == recorded_name(*self),
    {
        if *self == PyFamily::Multinomial {
            "MultinomialLss"
        } else if match self {
            PyFamily::Beta => true,
            PyFamily::Binomial => true,
            PyFamily::Gaussian => true,
            PyFamily::Gev => true,
            PyFamily::Jsu => true,
            PyFamily::LogNormal => true,
            PyFamily::Weibull => true,
            PyFamily::Zip => true,
            _ => false,
        } {
            upper_name_of(*self)
        } else {
            mixed_name_of(*self)
        }
    }
}

/// The names under which the family is documented to be chosen: each
/// family answers to exactly these names and to no other.
pub open spec fn documented_names(f: PyFamily) -> Seq<Seq<char>> {
    match f {
        PyFamily::Gaussian => seq!["GaussianLSS"@, "GaussianLss"@],
        PyFamily::Binomial => seq!["BinomialLSS"@, "BinomialLss"@],
        PyFamily::Beta => seq!["BetaLSS"@, "BetaLss"@],
        PyFamily::Weibull => seq!["WeibullLSS"@, "WeibullLss"@],
        PyFamily::LogNormal => seq!["LogNormalLSS"@, "LogNormalLss"@],
        PyFamily::Zip => seq!["ZIPLSS"@, "ZIPLss"@, "ZipLss"@],
        PyFamily::Gev => seq!["GEVLSS"@, "GEVLss"@, "GevLss"@],
        PyFamily::Jsu => seq!["JSULSS"@, "JSULss"@, "JsuLss"@],
        PyFamily::Burr12 => seq!["BURR12LSS"@, "Burr12Lss"@],
        PyFamily::Gamma => seq!["GAMMALSS"@, "GammaLss"@],
        PyFamily::Ged => seq!["GEDLSS"@, "GedLss"@],
        PyFamily::Gpd => seq!["GPDLSS"@, "GpdLss"@],
        PyFamily::InverseGaussian => seq!["INVERSEGAUSSIANLSS"@, "InverseGaussianLss"@],
        PyFamily::LogLogistic => seq!["LOGLOGISTICLSS"@, "LogLogisticLss"@],
        PyFamily::NBinomial => seq!["NBINOMIALLSS"@, "NBinomialLss"@],
        PyFamily::Nig => seq!["NIGLSS"@, "NigLss"@],
        PyFamily::Poisson => seq!["POISSONLSS"@, "PoissonLss"@],
        PyFamily::StudentT => seq!["STUDENTTLSS"@, "StudentTLss"@],
        PyFamily::Multinomial => seq!["MULTINOMIAL"@, "Multinomial"@],
    }
}

/// The family that owns the four-character prefix of `n` among the
/// documented names; no two families share such a prefix.
spec fn prefix_owner(n: Seq<char>) -> Option<PyFamily> {
    if n.len() < 4 {
        None
    } else if n[0] == 'G' && n[1] == 'a' && n[2] == 'u' && n[3] == 's' {
        Some(PyFamily::Gaussian)
    } else if n[0] == 'B' && n[1] == 'i' && n[2] == 'n' && n[3] == 'o' {
        Some(PyFamily::Binomial)
    } else if n[0] == 'B' && n[1] == 'e' && n[2] == 't' && n[3] == 'a' {
        Some(PyFamily::Beta)
    } else if n[0] == 'W' && n[1] == 'e' && n[2] == 'i' && n[3] == 'b' {
        Some(PyFamily::Weibull)
    } else if n[0] == 'L' && n[1] == 'o' && n[2] == 'g' && n[3] == 'N' {
        Some(PyFamily::LogNormal)
    } else if n[0] == 'Z' && n[1] == 'I' && n[2] == 'P' && n[3] == 'L' {
        Some(PyFamily::Zip)
    } else if n[0] == 'Z' && n[1] == 'i' && n[2] == 'p' && n[3] == 'L' {
        Some(PyFamily::Zip)
    } else if n[0] == 'G' && n[1] == 'E' && n[2] == 'V' && n[3] == 'L' {
        Some(PyFamily::Gev)
    } else if n[0] == 'G' && n[1] == 'e' && n[2] == 'v' && n[3] == 'L' {
        Some(PyFamily::Gev)
    } else if n[0] == 'J' && n[1] == 'S' && n[2] == 'U' && n[3] == 'L' {
        Some(PyFamily::Jsu)
    } else if n[0] == 'J' && n[1] == 's' && n[2] == 'u' && n[3] == 'L' {
        Some(PyFamily::Jsu)
    } else if n[0] == 'B' && n[1] == 'U' && n[2] == 'R' && n[3] == 'R' {
        Some(PyFamily::Burr12)
    } else if n[0] == 'B' && n[1] == 'u' && n[2] == 'r' && n[3] == 'r' {
        Some(PyFamily::Burr12)
    } else if n[0] == 'G' && n[1] == 'A' && n[2] == 'M' && n[3] == 'M' {
        Some(PyFamily::Gamma)
    } else if n[0] == 'G' && n[1] == 'a' && n[2] == 'm' && n[3] == 'm' {
        Some(PyFamily::Gamma)
    } else if n[0] == 'G' && n[1] == 'E' && n[2] == 'D' && n[3] == 'L' {
        Some(PyFamily::Ged)
    } else if n[0] == 'G' && n[1] == 'e' && n[2] == 'd' && n[3] == 'L' {
        Some(PyFamily::Ged)
    } else if n[0] == 'G' && n[1] == 'P' && n[2] == 'D' && n[3] == 'L' {
        Some(PyFamily::Gpd)
    } else if n[0] == 'G' && n[1] == 'p' && n[2] == 'd' && n[3] == 'L' {
        Some(PyFamily::Gpd)
    } else if n[0] == 'I' && n[1] == 'N' && n[2] == 'V' && n[3] == 'E' {
        Some(PyFamily::InverseGaussian)
    } else if n[0] == 'I' && n[1] == 'n' && n[2] == 'v' && n[3] == 'e' {
        Some(PyFamily::InverseGaussian)
    } else if n[0] == 'L' && n[1] == 'O' && n[2] == 'G' && n[3] == 'L' {
        Some(PyFamily::LogLogistic)
    } else if n[0] == 'L' && n[1] == 'o' && n[2] == 'g' && n[3] == 'L' {
        Some(PyFamily::LogLogistic)
    } else if n[0] == 'N' && n[1] == 'B' && n[2] == 'I' && n[3] == 'N' {
        Some(PyFamily::NBinomial)
    } else if n[0] == 'N' && n[1] == 'B' && n[2] == 'i' && n[3] == 'n' {
        Some(PyFamily::NBinomial)
    } else if n[0] == 'N' && n[1] == 'I' && n[2] == 'G' && n[3] == 'L' {
        Some(PyFamily::Nig)
    } else if n[0] == 'N' && n[1] == 'i' && n[2] == 'g' && n[3] == 'L' {
        Some(PyFamily::Nig)
    } else if n[0] == 'P' && n[1] == 'O' && n[2] == 'I' && n[3] == 'S' {
        Some(PyFamily::Poisson)
    } else if n[0] == 'P' && n[1] == 'o' && n[2] == 'i' && n[3] == 's' {
        Some(PyFamily::Poisson)
    } else if n[0] == 'S' && n[1] == 'T' && n[2] == 'U' && n[3] == 'D' {
        Some(PyFamily::StudentT)
    } else if n[0] == 'S' && n[1] == 't' && n[2] == 'u' && n[3] == 'd' {
        Some(PyFamily::StudentT)
    } else if n[0] == 'M' && n[1] == 'U' && n[2] == 'L' && n[3] == 'T' {
        Some(PyFamily::Multinomial)
    } else if n[0] == 'M' && n[1] == 'u' && n[2] == 'l' && n[3] == 't' {
        Some(PyFamily::Multinomial)
    } else {
        None
    }
}

/// A documented name belongs to the family that owns its prefix.
proof fn lemma_documented_owner(f: PyFamily, n: Seq<char>)
    requires
        documented_names(f).contains(n),
    ensures
        prefix_owner(n) == Some(f),
{
    let t = documented_names(f);
    let k = choose|k: int| 0 <= k < t.len() && t[k] == n;
    match f {
        PyFamily::Gaussian => {
            reveal_strlit("GaussianLSS"); reveal_strlit("GaussianLss");
            assert(k < 2);
        },
        PyFamily::Binomial => {
            reveal_strlit("BinomialLSS"); reveal_strlit("BinomialLss");
            assert(k < 2);
        },
        PyFamily::Beta => {
            reveal_strlit("BetaLSS"); reveal_strlit("BetaLss");
            assert(k < 2);
        },
        PyFamily::Weibull => {
            reveal_strlit("WeibullLSS"); reveal_strlit("WeibullLss");
            assert(k < 2);
        },
        PyFamily::LogNormal => {
            reveal_strlit("LogNormalLSS"); reveal_strlit("LogNormalLss");
            assert(k < 2);
        },
        PyFamily::Zip => {
            reveal_strlit("ZIPLSS"); reveal_strlit("ZIPLss"); reveal_strlit("ZipLss");
            assert(k < 3);
        },
        PyFamily::Gev => {
            reveal_strlit("GEVLSS"); reveal_strlit("GEVLss"); reveal_strlit("GevLss");
            assert(k < 3);
        },
        PyFamily::Jsu => {
            reveal_strlit("JSULSS"); reveal_strlit("JSULss"); reveal_strlit("JsuLss");
            assert(k < 3);
        },
        PyFamily::Burr12 => {
            reveal_strlit("BURR12LSS"); reveal_strlit("Burr12Lss");
            assert(k < 2);
        },
        PyFamily::Gamma => {
            reveal_strlit("GAMMALSS"); reveal_strlit("GammaLss");
            assert(k < 2);
        },
        PyFamily::Ged => {
            reveal_strlit("GEDLSS"); reveal_strlit("GedLss");
            assert(k < 2);
        },
        PyFamily::Gpd => {
            reveal_strlit("GPDLSS"); reveal_strlit("GpdLss");
            assert(k < 2);
        },
        PyFamily::InverseGaussian => {
            reveal_strlit("INVERSEGAUSSIANLSS"); reveal_strlit("InverseGaussianLss");
            assert(k < 2);
        },
        PyFamily::LogLogistic => {
            reveal_strlit("LOGLOGISTICLSS"); reveal_strlit("LogLogisticLss");
            assert(k < 2);
        },
        PyFamily::NBinomial => {
            reveal_strlit("NBINOMIALLSS"); reveal_strlit("NBinomialLss");
            assert(k < 2);
        },
        PyFamily::Nig => {
            reveal_strlit("NIGLSS"); reveal_strlit("NigLss");
            assert(k < 2);
        },
        PyFamily::Poisson => {
            reveal_strlit("POISSONLSS"); reveal_strlit("PoissonLss");
            assert(k < 2);
        },
        PyFamily::StudentT => {
            reveal_strlit("STUDENTTLSS"); reveal_strlit("StudentTLss");
            assert(k < 2);
        },
        PyFamily::Multinomial => {
            reveal_strlit("MULTINOMIAL"); reveal_strlit("Multinomial");
            assert(k < 2);
        },
    }
}

/// The names a family answers to are its documented names.
proof fn lemma_names_documented(f: PyFamily)
    ensures
        family_names(f) == documented_names(f),
{
    assert(family_names(f) =~= documented_names(f));
}

/// Every family is listed in `all_families()`.
proof fn lemma_family_listed(f: PyFamily) -> (j: int)
    ensures
        0 <= j < all_families().len(),
        all_families()[j] == f,
{
    match f {
        PyFamily::Beta => 0,
        PyFamily::Binomial => 1,
        PyFamily::Burr12 => 2,
        PyFamily::Gamma => 3,
        PyFamily::Gaussian => 4,
        PyFamily::Ged => 5,
        PyFamily::Gev => 6,
        PyFamily::Gpd => 7,
        PyFamily::InverseGaussian => 8,
        PyFamily::Jsu => 9,
        PyFamily::LogLogistic => 10,
        PyFamily::LogNormal => 11,
        PyFamily::Multinomial => 12,
        PyFamily::NBinomial => 13,
        PyFamily::Nig => 14,
        PyFamily::Poisson => 15,
        PyFamily::StudentT => 16,
        PyFamily::Weibull => 17,
        PyFamily::Zip => 18,
    }
}

/// What the scan of `family_from` from position `i` finds: only a family
/// that answers to `name`, and some family whenever one at position `i` or
/// later does.
proof fn lemma_family_from(name: Seq<char>, i: nat)
    ensures
        family_from(name, i) matches Some(g) ==> family_names(g).contains(name),
        (exists|j: int| i <= j < all_families().len() && #[trigger] family_names(all_families()[j]).contains(name))
            ==> family_from(name, i) is Some,
    decreases all_families().len() - i,
{
    if i < all_families().len() {
        lemma_family_from(name, i + 1);
        if exists|j: int| i <= j < all_families().len() && #[trigger] family_names(all_families()[j]).contains(name) {
            let j = choose|j: int| i <= j < all_families().len() && #[trigger] family_names(all_families()[j]).contains(name);
            if j > i {
                assert(family_names(all_families()[j]).contains(name));
            }
        }
    }
}

/// A name selects a family exactly when it is one of that family's
/// documented names: every documented name selects its own family, and no
/// other name selects it.
pub proof fn law_family_aliases(f: PyFamily, n: Seq<char>)
    ensures
        family_of_name(n) == Some(f) <==> documented_names(f).contains(n),
{
    lemma_family_from(n, 0);
    lemma_names_documented(f);
    if family_of_name(n) is Some {
        let g = family_of_name(n)->0;
        lemma_names_documented(g);
        lemma_documented_owner(g, n);
        if documented_names(f).contains(n) {
            lemma_documented_owner(f, n);
        }
    } else if documented_names(f).contains(n) {
        let j = lemma_family_listed(f);
        assert(family_names(all_families()[j]).contains(n));
    }
}

/// Every family but the multinomial is rebuilt by `new` from the name it is
/// recorded under.
pub proof fn law_family_name_round_trip(f: PyFamily)
    requires
        f != PyFamily::Multinomial,
    ensures
        family_of_name(recorded_name(f)) == Some(f),
{
    lemma_names_documented(f);
    let names = family_names(f);
    assert(names[0] == upper_name(f));
    assert(names[1] == mixed_name(f));
    assert(documented_names(f).contains(recorded_name(f)));
    law_family_aliases(f, recorded_name(f));
}

/// The name an algorithm is recorded under.
pub open spec fn algorithm_name(a: Algorithm) -> Seq<char> {
    match a {
        Algorithm::NonCyclic => "noncyclic"@,
        Algorithm::NonCyclicOuter => "noncyclic_outer"@,
        Algorithm::Cyclic => "cyclic"@,
    }
}

/// The algorithm whose recorded name is `name`.
pub open spec fn algorithm_of_name(name: Seq<char>) -> Option<Algorithm> {
    if exists|a: Algorithm| algorithm_name(a) == name {
        Some(choose|a: Algorithm| algorithm_name(a) == name)
    } else {
        None
    }
}

/// Distinct algorithms have distinct names.
pub proof fn lemma_algorithm_names_distinct(a: Algorithm, b: Algorithm)
    ensures
        algorithm_name(a) == algorithm_name(b) ==> a == b,
{
    reveal_strlit("cyclic");
    reveal_strlit("noncyclic");
    reveal_strlit("noncyclic_outer");
    assert("noncyclic"@[0] != "cyclic"@[0]);
    assert("noncyclic_outer"@[0] != "cyclic"@[0]);
    assert("noncyclic_outer"@.len() != "noncyclic"@.len());
}

impl Algorithm {
    /// The name the algorithm is recorded under.
    pub fn name(&self) -> (r: &'static str)
        ensures
            r@ == algorithm_name(*self),
    {
        match self {
            Algorithm::NonCyclic => "noncyclic",
            Algorithm::NonCyclicOuter => "noncyclic_outer",
            Algorithm::Cyclic => "cyclic",
        }
    }

    /// The algorithm recorded under `name`, if any.
    pub fn from_name(name: &str) -> (r: Option<Algorithm>)
        ensures
            r == algorithm_of_name(name@),
    {
        let candidates = [Algorithm::Cyclic, Algorithm::NonCyclic, Algorithm::NonCyclicOuter];
        let mut i: usize = 0;
        while i < 3
            invariant
                i <= 3,
                candidates@ == seq![Algorithm::Cyclic, Algorithm::NonCyclic, Algorithm::NonCyclicOuter],
                forall|k: int| 0 <= k < i ==> algorithm_name(#[trigger] candidates@[k]) != name@,
            decreases 3 - i,
        {
            let a = candidates[i];
            if same_text(name, a.name()) {
                proof {
                    assert forall|b: Algorithm| algorithm_name(b) == name@ implies b == a by {
                        lemma_algorithm_names_distinct(a, b);
                    }
                }
                return Some(a);
            }
            i = i + 1;
        }
        proof {
            assert forall|b: Algorithm| algorithm_name(b) != name@ by {
                match b {
                    Algorithm::Cyclic => assert(candidates@[0] == b),
                    Algorithm::NonCyclic => assert(candidates@[1] == b),
                    Algorithm::NonCyclicOuter => assert(candidates@[2] == b),
                }
            }
        }
        None
    }
}

/// Every algorithm is found again from the name it is recorded under.
pub proof fn law_algorithm_name_round_trip(a: Algorithm)
    ensures
        algorithm_of_name(algorithm_name(a)) == Some(a),
{
    assert forall|b: Algorithm| algorithm_name(b) == algorithm_name(a) implies b == a by {
        lemma_algorithm_names_distinct(a, b);
    }
}

/// What `str::to_lowercase` returns for a string.
pub uninterp spec fn lowercase(s: Seq<char>) -> Seq<char>;

/// Calls `str::to_lowercase`, the Unicode lowercase mapping of the whole
/// string.  The contract only names the result: it is `lowercase` of the
/// argument, a function of the argument alone; which characters it maps is
/// left unsaid.
#[verifier::external_body]
fn to_lowercase(s: &str) -> (r: String)
    ensures
        r@ == lowercase(s@),
{
    s.to_lowercase()
}

/// The lower-case name of a selection mode.
pub open spec fn mode_name(m: StabselMode) -> Seq<char> {
    match m {
        StabselMode::Independent => "independent"@,
        StabselMode::Joint => "joint"@,
    }
}

/// The lower-case name of a shape constraint.
pub open spec fn constraint_name(c: Constraint) -> Seq<char> {
    match c {
        Constraint::Concave => "concave"@,
        Constraint::Convex => "convex"@,
        Constraint::MonotonicDecreasing => "monotonic_decreasing"@,
        Constraint::MonotonicIncreasing => "monotonic_increasing"@,
    }
}

/// The selection mode named exactly `name`.
pub open spec fn stabsel_mode_of_name(name: Seq<char>) -> Option<StabselMode> {
    if exists|m: StabselMode| mode_name(m) == name {
        Some(choose|m: StabselMode| mode_name(m) == name)
    } else {
        None
    }
}

/// The shape constraint named exactly `name`.
pub open spec fn constraint_of_name(name: Seq<char>) -> Option<Constraint> {
    if exists|c: Constraint| constraint_name(c) == name {
        Some(choose|c: Constraint| constraint_name(c) == name)
    } else {
        None
    }
}

impl StabselMode {
    /// The mode whose name is exactly `lowered`.
    pub fn from_lowercase_name(lowered: &str) -> (r: Option<StabselMode>)
        ensures
            r == stabsel_mode_of_name(lowered@),
    {
        proof {
            reveal_strlit("independent");
            reveal_strlit("joint");
            assert("independent"@.len() != "joint"@.len());
        }
        let found = if same_text(lowered, "joint") {
            Some(StabselMode::Joint)
        } else if same_text(lowered, "independent") {
            Some(StabselMode::Independent)
        } else {
            None
        };
        proof {
            match found {
                Some(m) => {
                    assert(mode_name(m) == lowered@);
                    assert forall|n: StabselMode| mode_name(n) == lowered@ implies n == m by {}
                },
                None => {
                    assert forall|n: StabselMode| mode_name(n) != lowered@ by {}
                },
            }
        }
        found
    }

    /// The mode called `name`, in any letter case.
    pub fn from_name(name: &str) -> (r: Option<StabselMode>)
        ensures
            r == stabsel_mode_of_name(lowercase(name@)),
    {
        let lowered = to_lowercase(name);
        StabselMode::from_lowercase_name(lowered.as_str())
    }
}

/// Distinct constraints have distinct names.
proof fn lemma_constraint_names_distinct(a: Constraint, b: Constraint)
    ensures
        constraint_name(a) == constraint_name(b) ==> a == b,
{
    reveal_strlit("concave");
    reveal_strlit("convex");
    reveal_strlit("monotonic_decreasing");
    reveal_strlit("monotonic_increasing");
    assert("concave"@[3] != "convex"@[3]);
    assert("concave"@[0] != "monotonic_decreasing"@[0]);
    assert("concave"@[0] != "monotonic_increasing"@[0]);
    assert("convex"@[0] != "monotonic_decreasing"@[0]);
    assert("convex"@[0] != "monotonic_increasing"@[0]);
    assert("monotonic_decreasing"@[10] != "monotonic_increasing"@[10]);
}

impl Constraint {
    /// The constraint whose name is exactly `lowered`.
    pub fn from_lowercase_name(lowered: &str) -> (r: Option<Constraint>)
        ensures
            r == constraint_of_name(lowered@),
    {
        let candidates = [
            Constraint::MonotonicIncreasing,
            Constraint::MonotonicDecreasing,
            Constraint::Convex,
            Constraint::Concave,
        ];
        let mut i: usize = 0;
        while i < 4
            invariant
                i <= 4,
                candidates@ == seq![
                    Constraint::MonotonicIncreasing,
                    Constraint::MonotonicDecreasing,
                    Constraint::Convex,
                    Constraint::Concave,
                ],
                forall|k: int| 0 <= k < i ==> constraint_name(#[trigger] candidates@[k]) != lowered@,
            decreases 4 - i,
        {
            let c = candidates[i];
            if same_text(lowered, c.name()) {
                proof {
                    assert forall|d: Constraint| constraint_name(d) == lowered@ implies d == c by {
                        lemma_constraint_names_distinct(c, d);
                    }
                }
                return Some(c);
            }
            i = i + 1;
        }
        proof {
            assert forall|d: Constraint| constraint_name(d) != lowered@ by {
                match d {
                    Constraint::MonotonicIncreasing => assert(candidates@[0] == d),
                    Constraint::MonotonicDecreasing => assert(candidates@[1] == d),
                    Constraint::Convex => assert(candidates@[2] == d),
                    Constraint::Concave => assert(candidates@[3] == d),
                }
            }
        }
        None
    }

    /// The lower-case name of the constraint.
    pub fn name(&self) -> (r: &'static str)
        ensures
            r@ == constraint_name(*self),
    {
        match self {
            Constraint::Concave => "concave",
            Constraint::Convex => "convex",
            Constraint::MonotonicDecreasing => "monotonic_decreasing",
            Constraint::MonotonicIncreasing => "monotonic_increasing",
        }
    }

    /// The constraint called `name`, in any letter case.
    pub fn from_name(name: &str) -> (r: Option<Constraint>)
        ensures
            r == constraint_of_name(lowercase(name@)),
    {
        let lowered = to_lowercase(name);
        Constraint::from_lowercase_name(lowered.as_str())
    }
}

/// Name of the predictor of class `i` in the multinomial family: `pi_<i>`.
pub open spec fn class_param_name(i: nat) -> Seq<char> {
    "pi_"@ + decimal(i)
}

/// The parameter names of the multinomial family with `k` classes:
/// `pi_0`, `pi_1`, ..., one per class.
pub fn multinomial_param_names(k: usize) -> (r: Vec<String>)
    ensures
        r@.len() == k,
        forall|i: int| 0 <= i < k ==> (#[trigger] r@[i])@ == class_param_name(i as nat),
{
    let mut names: Vec<String> = Vec::new();
    let mut i: usize = 0;
    while i < k
        invariant
            i <= k,
            names@.len() == i,
            forall|j: int| 0 <= j < i ==> (#[trigger] names@[j])@ == class_param_name(j as nat),
        decreases k - i,
    {
        let mut name = String::from_str("pi_");
        let digits = decimal_text(i);
        name.append(digits.as_str());
        names.push(name);
        i = i + 1;
    }
    names
}

/// `name` selects algorithm `a` exactly when it is the name the API
/// documents for `a`: "cyclic", "noncyclic" or "noncyclic_outer".
pub proof fn law_algorithm_names(a: Algorithm, name: Seq<char>)
    ensures
        algorithm_of_name(name) == Some(a) <==> name == (match a {
            Algorithm::Cyclic => "cyclic"@,
            Algorithm::NonCyclic => "noncyclic"@,
            Algorithm::NonCyclicOuter => "noncyclic_outer"@,
        }),
{
    assert forall|b: Algorithm, c: Algorithm| algorithm_name(b) == algorithm_name(c) implies b == c by {
        lemma_algorithm_names_distinct(b, c);
    }
    if algorithm_name(a) == name {
        assert(exists|b: Algorithm| algorithm_name(b) == name);
    }
}

/// `name` selects selection mode `m` exactly when it is the documented
/// lower-case name of `m`: "joint" or "independent".
pub proof fn law_mode_names(m: StabselMode, name: Seq<char>)
    ensures
        stabsel_mode_of_name(name) == Some(m) <==> name == (match m {
            StabselMode::Joint => "joint"@,
            StabselMode::Independent => "independent"@,
        }),
{
    reveal_strlit("independent");
    reveal_strlit("joint");
    assert("independent"@.len() != "joint"@.len());
    if mode_name(m) == name {
        assert(exists|b: StabselMode| mode_name(b) == name);
    }
}

/// `name` selects shape constraint `c` exactly when it is the documented
/// lower-case name of `c`: "monotonic_increasing", "monotonic_decreasing",
/// "convex" or "concave".
pub proof fn law_constraint_names(c: Constraint, name: Seq<char>)
    ensures
        constraint_of_name(name) == Some(c) <==> name == (match c {
            Constraint::MonotonicIncreasing => "monotonic_increasing"@,
            Constraint::MonotonicDecreasing => "monotonic_decreasing"@,
            Constraint::Convex => "convex"@,
            Constraint::Concave => "concave"@,
        }),
{
    assert forall|b: Constraint, d: Constraint| constraint_name(b) == constraint_name(d) implies b == d by {
        lemma_constraint_names_distinct(b, d);
    }
    if constraint_name(c) == name {
        assert(exists|b: Constraint| constraint_name(b) == name);
    }
}

} // verus!
