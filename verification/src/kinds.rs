//! Names of the optimizer's acquisition functions and kernels.
use vstd::prelude::*;
use crate::text::push_str;

verus! {

/// What `str::to_lowercase` returns for text `s` (the full Unicode
/// lowercase mapping).
pub uninterp spec fn lowercase(s: Seq<char>) -> Seq<char>;

/// Calls `str::to_lowercase`; its result is named `lowercase` of the text.
#[verifier::external_body]
fn to_lowercase(s: &str) -> (r: String)
    ensures
        r@ == lowercase(s@),
{
    s.to_lowercase()
}

/// Whether the two texts are equal.
pub fn same_text(a: &str, b: &str) -> (r: bool)
    ensures
        r == (a@ == b@),
{
    let x = String::from_str(a);
    let y = String::from_str(b);
    x == y
}

/// The acquisition function that proposes the next point.
#[derive(Debug, Clone, Copy, PartialEq, Eq, Structural)]
pub enum AcquisitionKind {
    EI,
    UCB,
    PI,
}

/// The acquisition function a lowercase name denotes, if any.
pub open spec fn acquisition_named(name: Seq<char>) -> Option<AcquisitionKind> {
    if name == "ei"@ || name == "expected_improvement"@ {
        Some(AcquisitionKind::EI)
    } else if name == "ucb"@ || name == "upper_confidence_bound"@ {
        Some(AcquisitionKind::UCB)
    } else if name == "pi"@ || name == "probability_of_improvement"@ {
        Some(AcquisitionKind::PI)
    } else {
        None
    }
}

/// The acquisition function names are different texts.
proof fn lemma_acquisition_names_differ()
    ensures
        "ei"@ != "ucb"@,
        "ei"@ != "upper_confidence_bound"@,
        "expected_improvement"@ != "ucb"@,
        "expected_improvement"@ != "upper_confidence_bound"@,
        "pi"@ != "ei"@,
        "pi"@ != "expected_improvement"@,
        "pi"@ != "ucb"@,
        "pi"@ != "upper_confidence_bound"@,
        "probability_of_improvement"@ != "ei"@,
        "probability_of_improvement"@ != "expected_improvement"@,
        "probability_of_improvement"@ != "ucb"@,
        "probability_of_improvement"@ != "upper_confidence_bound"@,
{
    reveal_strlit("ei");
    reveal_strlit("expected_improvement");
    reveal_strlit("ucb");
    reveal_strlit("upper_confidence_bound");
    reveal_strlit("pi");
    reveal_strlit("probability_of_improvement");
    assert("ei"@[0] != "ucb"@[0]);
    assert("ei"@[0] != "upper_confidence_bound"@[0]);
    assert("expected_improvement"@[0] != "ucb"@[0]);
    assert("expected_improvement"@[0] != "upper_confidence_bound"@[0]);
    assert("pi"@[0] != "ei"@[0]);
    assert("pi"@[0] != "expected_improvement"@[0]);
    assert("pi"@[0] != "ucb"@[0]);
    assert("pi"@[0] != "upper_confidence_bound"@[0]);
    assert("probability_of_improvement"@[0] != "ei"@[0]);
    assert("probability_of_improvement"@[0] != "expected_improvement"@[0]);
    assert("probability_of_improvement"@[0] != "ucb"@[0]);
    assert("probability_of_improvement"@[0] != "upper_confidence_bound"@[0]);
}

/// The kernel names are different texts.
proof fn lemma_kernel_names_differ()
    ensures
        "matern32"@ != "matern52"@,
        "matern32"@ != "matern_52"@,
        "matern_32"@ != "matern52"@,
        "matern_32"@ != "matern_52"@,
        "rbf"@ != "matern52"@,
        "rbf"@ != "matern_52"@,
        "rbf"@ != "matern32"@,
        "rbf"@ != "matern_32"@,
        "squared_exponential"@ != "matern52"@,
        "squared_exponential"@ != "matern_52"@,
        "squared_exponential"@ != "matern32"@,
        "squared_exponential"@ != "matern_32"@,
        "se"@ != "matern52"@,
        "se"@ != "matern_52"@,
        "se"@ != "matern32"@,
        "se"@ != "matern_32"@,
        "rq"@ != "matern52"@,
        "rq"@ != "matern_52"@,
        "rq"@ != "matern32"@,
        "rq"@ != "matern_32"@,
        "rq"@ != "rbf"@,
        "rq"@ != "squared_exponential"@,
        "rq"@ != "se"@,
        "rational_quadratic"@ != "matern52"@,
        "rational_quadratic"@ != "matern_52"@,
        "rational_quadratic"@ != "matern32"@,
        "rational_quadratic"@ != "matern_32"@,
        "rational_quadratic"@ != "rbf"@,
        "rational_quadratic"@ != "squared_exponential"@,
        "rational_quadratic"@ != "se"@,
{
    reveal_strlit("matern52");
    reveal_strlit("matern_52");
    reveal_strlit("matern32");
    reveal_strlit("matern_32");
    reveal_strlit("rbf");
    reveal_strlit("squared_exponential");
    reveal_strlit("se");
    reveal_strlit("rq");
    reveal_strlit("rational_quadratic");
    assert("matern32"@[6] != "matern52"@[6]);
    assert("matern32"@[6] != "matern_52"@[6]);
    assert("matern_32"@[6] != "matern52"@[6]);
    assert("matern_32"@[7] != "matern_52"@[7]);
    assert("rbf"@[0] != "matern52"@[0]);
    assert("rbf"@[0] != "matern_52"@[0]);
    assert("rbf"@[0] != "matern32"@[0]);
    assert("rbf"@[0] != "matern_32"@[0]);
    assert("squared_exponential"@[0] != "matern52"@[0]);
    assert("squared_exponential"@[0] != "matern_52"@[0]);
    assert("squared_exponential"@[0] != "matern32"@[0]);
    assert("squared_exponential"@[0] != "matern_32"@[0]);
    assert("se"@[0] != "matern52"@[0]);
    assert("se"@[0] != "matern_52"@[0]);
    assert("se"@[0] != "matern32"@[0]);
    assert("se"@[0] != "matern_32"@[0]);
    assert("rq"@[0] != "matern52"@[0]);
    assert("rq"@[0] != "matern_52"@[0]);
    assert("rq"@[0] != "matern32"@[0]);
    assert("rq"@[0] != "matern_32"@[0]);
    assert("rq"@[1] != "rbf"@[1]);
    assert("rq"@[0] != "squared_exponential"@[0]);
    assert("rq"@[0] != "se"@[0]);
    assert("rational_quadratic"@[0] != "matern52"@[0]);
    assert("rational_quadratic"@[0] != "matern_52"@[0]);
    assert("rational_quadratic"@[0] != "matern32"@[0]);
    assert("rational_quadratic"@[0] != "matern_32"@[0]);
    assert("rational_quadratic"@[1] != "rbf"@[1]);
    assert("rational_quadratic"@[0] != "squared_exponential"@[0]);
    assert("rational_quadratic"@[0] != "se"@[0]);
}

/// Each acquisition function's long name denotes the same function as its
/// short name, and the three functions have different names.
pub proof fn lemma_acquisition_aliases()
    ensures
        acquisition_named("expected_improvement"@) == acquisition_named("ei"@),
        acquisition_named("ei"@) == Some(AcquisitionKind::EI),
        acquisition_named("upper_confidence_bound"@) == acquisition_named("ucb"@),
        acquisition_named("ucb"@) == Some(AcquisitionKind::UCB),
        acquisition_named("probability_of_improvement"@) == acquisition_named("pi"@),
        acquisition_named("pi"@) == Some(AcquisitionKind::PI),
        forall|name: Seq<char>|
            #[trigger] acquisition_named(name) is Some ==> name == "ei"@ || name == "expected_improvement"@ || name
                == "ucb"@ || name == "upper_confidence_bound"@ || name == "pi"@ || name
                == "probability_of_improvement"@,
{
    reveal_strlit("ei");
    reveal_strlit("expected_improvement");
    reveal_strlit("ucb");
    reveal_strlit("upper_confidence_bound");
    reveal_strlit("pi");
    reveal_strlit("probability_of_improvement");
    lemma_acquisition_names_differ();
}

impl AcquisitionKind {
    /// Reads an already lowercased name; `given` is the name as the caller wrote it,
    /// quoted in the error.
    pub fn from_lowercase(lower: &str, given: &str) -> (res: Result<AcquisitionKind, String>)
        ensures
            acquisition_named(lower@) matches Some(k) ==> res == Ok::<AcquisitionKind, String>(k),
            acquisition_named(lower@) is None ==> res is Err && res->Err_0@
                == "unknown acquisition function: "@ + given@,
            lower@ == "ei"@ || lower@ == "expected_improvement"@ ==> res == Ok::<AcquisitionKind, String>(
                AcquisitionKind::EI,
            ),
            lower@ == "ucb"@ || lower@ == "upper_confidence_bound"@ ==> res == Ok::<AcquisitionKind, String>(
                AcquisitionKind::UCB,
            ),
            lower@ == "pi"@ || lower@ == "probability_of_improvement"@ ==> res == Ok::<AcquisitionKind, String>(
                AcquisitionKind::PI,
            ),
    {
        proof {
            reveal_strlit("ei");
            reveal_strlit("expected_improvement");
            reveal_strlit("ucb");
            reveal_strlit("upper_confidence_bound");
            reveal_strlit("pi");
            reveal_strlit("probability_of_improvement");
            reveal_strlit("unknown acquisition function: ");
            lemma_acquisition_names_differ();
        }
        if same_text(lower, "ei") || same_text(lower, "expected_improvement") {
            Ok(AcquisitionKind::EI)
        } else if same_text(lower, "ucb") || same_text(lower, "upper_confidence_bound") {
            Ok(AcquisitionKind::UCB)
        } else if same_text(lower, "pi") || same_text(lower, "probability_of_improvement") {
            Ok(AcquisitionKind::PI)
        } else {
            let mut msg = String::new();
            push_str(&mut msg, "unknown acquisition function: ");
            push_str(&mut msg, given);
            Err(msg)
        }
    }

    /// Reads an acquisition function name, ignoring case.
    pub fn parse(s: &str) -> (res: Result<AcquisitionKind, String>)
        ensures
            acquisition_named(lowercase(s@)) matches Some(k) ==> res == Ok::<
                AcquisitionKind,
                String,
            >(k),
            acquisition_named(lowercase(s@)) is None ==> res is Err && res->Err_0@
                == "unknown acquisition function: "@ + s@,
    {
        let lower = to_lowercase(s);
        Self::from_lowercase(lower.as_str(), s)
    }
}

/// The covariance kernel of the Gaussian process.
#[derive(Debug, Clone, Copy, PartialEq, Eq, Structural)]
pub enum KernelKind {
    Matern52,
    Matern32,
    RBF,
    RationalQuadratic,
}

/// The kernel a lowercase name denotes, if any.
pub open spec fn kernel_named(name: Seq<char>) -> Option<KernelKind> {
    if name == "matern52"@ || name == "matern_52"@ {
        Some(KernelKind::Matern52)
    } else if name == "matern32"@ || name == "matern_32"@ {
        Some(KernelKind::Matern32)
    } else if name == "rbf"@ || name == "squared_exponential"@ || name == "se"@ {
        Some(KernelKind::RBF)
    } else if name == "rq"@ || name == "rational_quadratic"@ {
        Some(KernelKind::RationalQuadratic)
    } else {
        None
    }
}

/// Each spelling of a kernel's name denotes the same kernel, and the four
/// kernels have different names.
pub proof fn lemma_kernel_aliases()
    ensures
        kernel_named("matern_52"@) == kernel_named("matern52"@),
        kernel_named("matern52"@) == Some(KernelKind::Matern52),
        kernel_named("matern_32"@) == kernel_named("matern32"@),
        kernel_named("matern32"@) == Some(KernelKind::Matern32),
        kernel_named("squared_exponential"@) == kernel_named("rbf"@),
        kernel_named("se"@) == kernel_named("rbf"@),
        kernel_named("rbf"@) == Some(KernelKind::RBF),
        kernel_named("rational_quadratic"@) == kernel_named("rq"@),
        kernel_named("rq"@) == Some(KernelKind::RationalQuadratic),
        forall|name: Seq<char>|
            #[trigger] kernel_named(name) is Some ==> name == "matern52"@ || name == "matern_52"@ || name
                == "matern32"@ || name == "matern_32"@ || name == "rbf"@ || name == "squared_exponential"@
                || name == "se"@ || name == "rq"@ || name == "rational_quadratic"@,
{
    reveal_strlit("matern52");
    reveal_strlit("matern_52");
    reveal_strlit("matern32");
    reveal_strlit("matern_32");
    reveal_strlit("rbf");
    reveal_strlit("squared_exponential");
    reveal_strlit("se");
    reveal_strlit("rq");
    reveal_strlit("rational_quadratic");
    lemma_kernel_names_differ();
}

impl KernelKind {
    /// Reads an already lowercased name; `given` is the name as the caller wrote it,
    /// quoted in the error.
    pub fn from_lowercase(lower: &str, given: &str) -> (res: Result<KernelKind, String>)
        ensures
            kernel_named(lower@) matches Some(k) ==> res == Ok::<KernelKind, String>(k),
            kernel_named(lower@) is None ==> res is Err && res->Err_0@ == "unknown kernel: "@
                + given@,
            lower@ == "matern52"@ || lower@ == "matern_52"@ ==> res == Ok::<KernelKind, String>(KernelKind::Matern52),
            lower@ == "matern32"@ || lower@ == "matern_32"@ ==> res == Ok::<KernelKind, String>(KernelKind::Matern32),
            lower@ == "rbf"@ || lower@ == "squared_exponential"@ || lower@ == "se"@ ==> res == Ok::<
                KernelKind,
                String,
            >(KernelKind::RBF),
            lower@ == "rq"@ || lower@ == "rational_quadratic"@ ==> res == Ok::<KernelKind, String>(
                KernelKind::RationalQuadratic,
            ),
    {
        proof {
            reveal_strlit("matern52");
            reveal_strlit("matern_52");
            reveal_strlit("matern32");
            reveal_strlit("matern_32");
            reveal_strlit("rbf");
            reveal_strlit("squared_exponential");
            reveal_strlit("se");
            reveal_strlit("rq");
            reveal_strlit("rational_quadratic");
            reveal_strlit("unknown kernel: ");
            lemma_kernel_names_differ();
        }
        if same_text(lower, "matern52") || same_text(lower, "matern_52") {
            Ok(KernelKind::Matern52)
        } else if same_text(lower, "matern32") || same_text(lower, "matern_32") {
            Ok(KernelKind::Matern32)
        } else if same_text(lower, "rbf") || same_text(lower, "squared_exponential") || same_text(
            lower,
            "se",
        ) {
            Ok(KernelKind::RBF)
        } else if same_text(lower, "rq") || same_text(lower, "rational_quadratic") {
            Ok(KernelKind::RationalQuadratic)
        } else {
            let mut msg = String::new();
            push_str(&mut msg, "unknown kernel: ");
            push_str(&mut msg, given);
            Err(msg)
        }
    }

    /// Reads a kernel name, ignoring case.
    pub fn parse(s: &str) -> (res: Result<KernelKind, String>)
        ensures
            kernel_named(lowercase(s@)) matches Some(k) ==> res == Ok::<KernelKind, String>(k),
            kernel_named(lowercase(s@)) is None ==> res is Err && res->Err_0@ == "unknown kernel: "@
                + s@,
    {
        let lower = to_lowercase(s);
        Self::from_lowercase(lower.as_str(), s)
    }
}

} // verus!
