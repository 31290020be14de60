//! The typed elements a parse produces, and the classified argument values
//! they carry.

use vstd::prelude::*;

use crate::classify;

verus! {

/// A free-text value after classification.  Exactly one variant is produced
/// for any string; `RawString` is the universal fallback and never an error.
/// A value recognized as a floating-point literal keeps its text form.
#[derive(Debug)]
pub enum CLArgument {
    RawString(String),
    U16(u16),
    Integer(i64),
    Float(String),
    Boolean(bool),
    IPAddress(String),
    RemotePath(String),
    LocalPath(String),
    URL(String),
}

/// Specification-level image of a [`CLArgument`]: the same variants over
/// mathematical sequences of characters.
#[verifier::ext_equal]
pub enum CLArgumentView {
    RawString(Seq<char>),
    U16(u16),
    Integer(i64),
    Float(Seq<char>),
    Boolean(bool),
    IPAddress(Seq<char>),
    RemotePath(Seq<char>),
    LocalPath(Seq<char>),
    URL(Seq<char>),
}

impl View for CLArgument {
    type V = CLArgumentView;

    open spec fn view(&self) -> CLArgumentView {
        match self {
            CLArgument::RawString(s) => CLArgumentView::RawString(s@),
            CLArgument::U16(n) => CLArgumentView::U16(*n),
            CLArgument::Integer(n) => CLArgumentView::Integer(*n),
            CLArgument::Float(s) => CLArgumentView::Float(s@),
            CLArgument::Boolean(b) => CLArgumentView::Boolean(*b),
            CLArgument::IPAddress(s) => CLArgumentView::IPAddress(s@),
            CLArgument::RemotePath(s) => CLArgumentView::RemotePath(s@),
            CLArgument::LocalPath(s) => CLArgumentView::LocalPath(s@),
            CLArgument::URL(s) => CLArgumentView::URL(s@),
        }
    }
}

impl DeepView for CLArgument {
    type V = CLArgumentView;

    open spec fn deep_view(&self) -> CLArgumentView {
        self.view()
    }
}

/// Rebuilds an argument value, keeping its view.
pub fn clone_argument(a: &CLArgument) -> (r: CLArgument)
    ensures
        r@ == a@,
{
    match a {
        CLArgument::RawString(s) => CLArgument::RawString(s.clone()),
        CLArgument::U16(n) => CLArgument::U16(*n),
        CLArgument::Integer(n) => CLArgument::Integer(*n),
        CLArgument::Float(s) => CLArgument::Float(s.clone()),
        CLArgument::Boolean(b) => CLArgument::Boolean(*b),
        CLArgument::IPAddress(s) => CLArgument::IPAddress(s.clone()),
        CLArgument::RemotePath(s) => CLArgument::RemotePath(s.clone()),
        CLArgument::LocalPath(s) => CLArgument::LocalPath(s.clone()),
        CLArgument::URL(s) => CLArgument::URL(s.clone()),
    }
}

impl CLArgument {
    /// Replaces a `RawString` value by the variant the classifier cascade
    /// infers for its text; any already-classified value is left unchanged.
    pub fn identify_type(&mut self)
        ensures
            match old(self)@ {
                CLArgumentView::RawString(s) => final(self)@ == classify::spec_classify(s),
                _ => final(self)@ == old(self)@,
            },
    {
        let text: Option<String> = match &*self {
            CLArgument::RawString(s) => Some(s.clone()),
            _ => None,
        };
        if let Some(s) = text {
            *self = classify::classify_string(s);
        }
    }
}

/// One element of a parsed command line.
#[derive(Debug)]
pub enum CLElement {
    /// A recognized option (short or long) with its captured value, if any.
    CLOption(String, Option<CLArgument>),
    /// A recognized option together with its declared behaviour tags.
    CLBehaviouredOption(String, Vec<String>, Option<CLArgument>),
    /// The program-level behaviour tags, prepended by enrichment.
    CLInherentBehaviours(Vec<String>),
    /// A free-standing argument.
    CLArgument(CLArgument),
    /// A configured separator character standing on its own.
    CLSep(char),
    /// An inline, recoverable parse error; parsing continues after it.
    ParsingError(Option<String>),
    /// A bare `--` token.
    CLDoubleDash,
}

/// Specification-level image of a [`CLElement`].
#[verifier::ext_equal]
pub enum CLElementView {
    CLOption(Seq<char>, Option<CLArgumentView>),
    CLBehaviouredOption(Seq<char>, Seq<Seq<char>>, Option<CLArgumentView>),
    CLInherentBehaviours(Seq<Seq<char>>),
    CLArgument(CLArgumentView),
    CLSep(char),
    ParsingError(Option<Seq<char>>),
    CLDoubleDash,
}

impl View for CLElement {
    type V = CLElementView;

    open spec fn view(&self) -> CLElementView {
        match self {
            CLElement::CLOption(name, arg) => CLElementView::CLOption(
                name@,
                match arg {
                    Some(a) => Some(a@),
                    None => None,
                },
            ),
            CLElement::CLBehaviouredOption(name, tags, arg) => CLElementView::CLBehaviouredOption(
                name@,
                tags.deep_view(),
                match arg {
                    Some(a) => Some(a@),
                    None => None,
                },
            ),
            CLElement::CLInherentBehaviours(tags) => CLElementView::CLInherentBehaviours(
                tags.deep_view(),
            ),
            CLElement::CLArgument(a) => CLElementView::CLArgument(a@),
            CLElement::CLSep(c) => CLElementView::CLSep(*c),
            CLElement::ParsingError(m) => CLElementView::ParsingError(
                match m {
                    Some(s) => Some(s@),
                    None => None,
                },
            ),
            CLElement::CLDoubleDash => CLElementView::CLDoubleDash,
        }
    }
}

impl DeepView for CLElement {
    type V = CLElementView;

    open spec fn deep_view(&self) -> CLElementView {
        self.view()
    }
}

/// Rebuilds an optional argument value, keeping its view.
pub fn clone_opt_argument(a: &Option<CLArgument>) -> (r: Option<CLArgument>)
    ensures
        match (a, &r) {
            (Some(x), Some(y)) => y@ == x@,
            (None, None) => true,
            _ => false,
        },
{
    match a {
        Some(x) => Some(clone_argument(x)),
        None => None,
    }
}

/// Rebuilds a parsed element, keeping its view.
pub fn clone_element(e: &CLElement) -> (r: CLElement)
    ensures
        r@ == e@,
{
    match e {
        CLElement::CLOption(name, arg) => CLElement::CLOption(name.clone(), clone_opt_argument(arg)),
        CLElement::CLBehaviouredOption(name, tags, arg) => CLElement::CLBehaviouredOption(
            name.clone(),
            crate::parser_config::clone_string_vec(tags),
            clone_opt_argument(arg),
        ),
        CLElement::CLInherentBehaviours(tags) => CLElement::CLInherentBehaviours(
            crate::parser_config::clone_string_vec(tags),
        ),
        CLElement::CLArgument(a) => CLElement::CLArgument(clone_argument(a)),
        CLElement::CLSep(c) => CLElement::CLSep(*c),
        CLElement::ParsingError(m) => CLElement::ParsingError(
            match m {
                Some(s) => Some(s.clone()),
                None => None,
            },
        ),
        CLElement::CLDoubleDash => CLElement::CLDoubleDash,
    }
}

} // verus!
