//! The report of one record: where its annotations go in the excerpt of
//! the caller's body, and the rendered text.

use crate::diagnostics::{PanicSpots, Spots, SpotsView};
use crate::span::Span;
use annotate_snippets::AnnotationKind;
use annotate_snippets::Level;
use annotate_snippets::Renderer;
use annotate_snippets::Snippet;
use vstd::prelude::*;
use vstd::utf8::{encode_utf8, is_char_boundary};

verus! {

/// The title of every report.
pub const TITLE: &'static str = "A possible panic spot is found.";

/// The label on the caller's declaration.
pub const CONTEXT_LABEL: &'static str = "For this function.";

/// The label on each witness.
pub const PRIMARY_LABEL: &'static str = "This may panic!";

/// The source text of a span, with the file it is from and the line on
/// which it begins.
#[derive(Debug)]
pub struct Excerpt {
    pub span: Span,
    pub source: String,
    pub path: String,
    pub line: usize,
}

/// Why a record could not be rendered.
#[derive(Clone, Copy, Debug, PartialEq, Eq, Structural)]
pub enum EmitError {
    /// No source text is at hand for the span of the caller's body.
    NoSnippet(Span),
    /// The excerpt begins on a line so late that its lines cannot be
    /// numbered; see [`lines_fit`].
    BadLine(Span),
    /// The span does not lie in the excerpt, or cuts a character of it.
    OutOfSnippet(Span),
}

/// Byte offsets into an excerpt: where the annotation of the caller goes,
/// and where those of the witnesses go.
#[derive(Debug)]
pub struct Layout {
    pub context: (usize, usize),
    pub primary: Vec<(usize, usize)>,
}

/// A layout, as a value of the model.
pub struct LayoutView {
    pub context: (usize, usize),
    pub primary: Seq<(usize, usize)>,
}

impl View for Layout {
    type V = LayoutView;

    open spec fn view(&self) -> LayoutView {
        LayoutView { context: self.context, primary: self.primary@ }
    }
}

/// The room that is kept between the last line of an excerpt and the end
/// of the numbers, so that the lines around it can be numbered too.
pub const LINE_MARGIN: usize = 8;

/// The lines of the excerpt can be numbered: the last of them is more than
/// [`LINE_MARGIN`] below the largest number.
pub open spec fn lines_fit(excerpt: Excerpt) -> bool {
    excerpt.line + encode_utf8(excerpt.source@).len() + LINE_MARGIN < usize::MAX
}

/// The range is in order, ends within the text and cuts no character.
pub open spec fn fits(text: Seq<char>, range: (usize, usize)) -> bool {
    &&& range.0 <= range.1 <= encode_utf8(text).len()
    &&& is_char_boundary(encode_utf8(text), range.0 as int)
    &&& is_char_boundary(encode_utf8(text), range.1 as int)
}

/// Where `span` lies in the excerpt, counted in bytes from its start; none
/// if it does not lie there.
pub open spec fn place(excerpt: Excerpt, span: Span) -> Option<(usize, usize)> {
    match span.spec_relative_to(excerpt.span) {
        Some(range) => if fits(excerpt.source@, range) {
            Some(range)
        } else {
            None
        },
        None => None,
    }
}

/// Where the spans lie in the excerpt, or the first of them that does not.
pub open spec fn places(excerpt: Excerpt, spans: Seq<Span>) -> Result<Seq<(usize, usize)>, EmitError>
    decreases spans.len(),
{
    if spans.len() == 0 {
        Ok(Seq::empty())
    } else {
        match places(excerpt, spans.drop_last()) {
            Ok(front) => match place(excerpt, spans.last()) {
                Some(range) => Ok(front.push(range)),
                None => Err(EmitError::OutOfSnippet(spans.last())),
            },
            Err(e) => Err(e),
        }
    }
}

/// The excerpt at `i` is the first for `span`.
pub open spec fn first_for(excerpts: Seq<Excerpt>, span: Span, i: int) -> bool {
    &&& 0 <= i < excerpts.len()
    &&& excerpts[i].span == span
    &&& forall|j: int| 0 <= j < i ==> (#[trigger] excerpts[j]).span != span
}

/// The first excerpt for `span`.
pub open spec fn excerpt_for(excerpts: Seq<Excerpt>, span: Span) -> Option<Excerpt> {
    if exists|i: int| first_for(excerpts, span, i) {
        Some(excerpts[choose|i: int| first_for(excerpts, span, i)])
    } else {
        None
    }
}

/// The layout of a record whose caller is declared at `f`: the offsets of
/// `f` and of each witness in the excerpt of the caller's body.
pub open spec fn layout_of(excerpts: Seq<Excerpt>, f: Span, spots: SpotsView) -> Result<
    LayoutView,
    EmitError,
> {
    match excerpt_for(excerpts, spots.caller) {
        None => Err(EmitError::NoSnippet(spots.caller)),
        Some(excerpt) => if !lines_fit(excerpt) {
            Err(EmitError::BadLine(spots.caller))
        } else {
            match place(excerpt, f) {
                None => Err(EmitError::OutOfSnippet(f)),
                Some(context) => match places(excerpt, spots.calls) {
                    Ok(primary) => Ok(LayoutView { context, primary }),
                    Err(e) => Err(e),
                },
            }
        },
    }
}

/// The source text that the reports are drawn from.
pub struct SourceCode {
    excerpts: Vec<Excerpt>,
}

impl View for SourceCode {
    type V = Seq<Excerpt>;

    closed spec fn view(&self) -> Seq<Excerpt> {
        self.excerpts@
    }
}

impl SourceCode {
    /// The source text of the excerpts given.
    pub fn new(excerpts: Vec<Excerpt>) -> (src: SourceCode)
        ensures
            src@ == excerpts@,
    {
        SourceCode { excerpts }
    }

    /// The first excerpt for `span`.
    pub fn find(&self, span: Span) -> (found: Option<&Excerpt>)
        ensures
            match found {
                Some(excerpt) => excerpt_for(self@, span) == Some(*excerpt),
                None => excerpt_for(self@, span).is_none(),
            },
    {
        let mut i: usize = 0;
        while i < self.excerpts.len()
            invariant
                i <= self@.len(),
                forall|j: int| 0 <= j < i ==> (#[trigger] self@[j]).span != span,
            decreases self@.len() - i,
        {
            if self.excerpts[i].span == span {
                proof {
                    assert(first_for(self@, span, i as int));
                    let c = choose|c: int| first_for(self@, span, c);
                    if c < i {
                        assert(self@[c].span != span);
                    }
                    if i < c {
                        assert(self@[i as int].span != span);
                    }
                }
                return Some(&self.excerpts[i]);
            }
            i = i + 1;
        }
        proof {
            assert forall|c: int| !first_for(self@, span, c) by {
                if 0 <= c < self@.len() {
                    assert(self@[c].span != span);
                }
            }
        }
        None
    }
}

/// The length of a text in bytes.
fn byte_len(text: &str) -> (n: usize)
    ensures
        n == encode_utf8(text@).len(),
{
    text.as_bytes().len()
}

/// Where `span` lies in the excerpt.
fn locate_in(excerpt: &Excerpt, span: Span) -> (range: Option<(usize, usize)>)
    ensures
        range == place(*excerpt, span),
{
    let text = excerpt.source.as_str();
    match span.relative_to(excerpt.span) {
        Some((lo, hi)) => {
            if hi <= byte_len(text) && text.is_char_boundary(lo) && text.is_char_boundary(hi) {
                Some((lo, hi))
            } else {
                None
            }
        },
        None => None,
    }
}

/// The report of one record.
pub struct CheckPanic<'a> {
    f: Span,
    spots: &'a Spots,
    src: &'a SourceCode,
}

impl<'a> CheckPanic<'a> {
    /// The layout that the report has, or the reason why it has none.
    pub closed spec fn planned(&self) -> Result<LayoutView, EmitError> {
        layout_of(self.src@, self.f, self.spots@)
    }

    /// The report of the record `spots`, whose caller is declared at `f`.
    pub fn new(f: Span, spots: &'a Spots, src: &'a SourceCode) -> (check: CheckPanic<'a>)
        ensures
            check.planned() == layout_of(src@, f, spots@),
    {
        CheckPanic { f, spots, src }
    }

    /// Works out where the annotations go.
    pub fn layout(&self) -> (plan: Result<Layout, EmitError>)
        ensures
            match plan {
                Ok(layout) => self.planned() == Ok::<LayoutView, EmitError>(layout@),
                Err(e) => self.planned() == Err::<LayoutView, EmitError>(e),
            },
    {
        match self.excerpt_and_layout() {
            Ok((_, layout)) => Ok(layout),
            Err(e) => Err(e),
        }
    }

    fn excerpt_and_layout(&self) -> (plan: Result<(&'a Excerpt, Layout), EmitError>)
        ensures
            match plan {
                Ok((excerpt, layout)) => {
                    &&& self.planned() == Ok::<LayoutView, EmitError>(layout@)
                    &&& lines_fit(*excerpt)
                    &&& fits(excerpt.source@, layout.context)
                    &&& forall|i: int|
                        0 <= i < layout.primary@.len() ==> fits(
                            excerpt.source@,
                            #[trigger] layout.primary@[i],
                        )
                },
                Err(e) => self.planned() == Err::<LayoutView, EmitError>(e),
            },
    {
        let excerpt = match self.src.find(self.spots.caller) {
            Some(excerpt) => excerpt,
            None => {
                return Err(EmitError::NoSnippet(self.spots.caller));
            },
        };
        let room = usize::MAX - byte_len(excerpt.source.as_str());
        if room <= LINE_MARGIN || excerpt.line >= room - LINE_MARGIN {
            return Err(EmitError::BadLine(self.spots.caller));
        }
        let context = match locate_in(excerpt, self.f) {
            Some(range) => range,
            None => {
                return Err(EmitError::OutOfSnippet(self.f));
            },
        };
        let mut primary: Vec<(usize, usize)> = Vec::new();
        let mut i: usize = 0;
        while i < self.spots.calls.len()
            invariant
                i <= self.spots.calls@.len(),
                excerpt_for(self.src@, self.spots.caller) == Some(*excerpt),
                lines_fit(*excerpt),
                place(*excerpt, self.f) == Some(context),
                places(*excerpt, self.spots.calls@.take(i as int)) == Ok::<
                    Seq<(usize, usize)>,
                    EmitError,
                >(primary@),
                forall|k: int| 0 <= k < primary@.len() ==> fits(excerpt.source@, #[trigger] primary@[k]),
            decreases self.spots.calls@.len() - i,
        {
            proof {
                assert(self.spots.calls@.take(i + 1).drop_last() =~= self.spots.calls@.take(i as int));
                assert(self.spots.calls@.take(i + 1).last() == self.spots.calls@[i as int]);
            }
            match locate_in(excerpt, self.spots.calls[i]) {
                Some(range) => {
                    primary.push(range);
                },
                None => {
                    proof {
                        let longer = self.spots.calls@.take(i + 1);
                        assert(places(*excerpt, longer) == Err::<Seq<(usize, usize)>, EmitError>(
                            EmitError::OutOfSnippet(longer.last()),
                        ));
                        lemma_places_fail(*excerpt, self.spots.calls@, i as int + 1);
                    }
                    return Err(EmitError::OutOfSnippet(self.spots.calls[i]));
                },
            }
            i = i + 1;
        }
        proof {
            assert(self.spots.calls@.take(i as int) =~= self.spots.calls@);
        }
        Ok((excerpt, Layout { context, primary }))
    }

    /// Renders the report: a title, the excerpt of the caller's body, an
    /// annotation over the caller's declaration and one over each witness.
    /// The text is that of the renderer; it is given on every record that
    /// has a layout.
    pub fn emit(&self) -> (out: Result<String, EmitError>)
        ensures
            match out {
                Ok(_) => self.planned().is_ok(),
                Err(e) => self.planned() == Err::<LayoutView, EmitError>(e),
            },
    {
        match self.excerpt_and_layout() {
            Ok((excerpt, layout)) => Ok(
                render(TITLE, excerpt, layout.context, CONTEXT_LABEL, &layout.primary, PRIMARY_LABEL),
            ),
            Err(e) => Err(e),
        }
    }
}

/// A failure among the first spans is the failure of all.
proof fn lemma_places_fail(excerpt: Excerpt, spans: Seq<Span>, upto: int)
    requires
        0 <= upto <= spans.len(),
        places(excerpt, spans.take(upto)).is_err(),
    ensures
        places(excerpt, spans) == places(excerpt, spans.take(upto)),
    decreases spans.len() - upto,
{
    if upto < spans.len() {
        assert(spans.take(upto + 1).drop_last() =~= spans.take(upto));
        lemma_places_fail(excerpt, spans, upto + 1);
    } else {
        assert(spans.take(upto) =~= spans);
    }
}

/// `Renderer::render` of `annotate_snippets`, in the styled form, on one
/// group: a title at the level of an error and one snippet with a context
/// annotation and primary annotations. Nothing is claimed of the text,
/// which differs with the platform's colours. What is asked keeps the call
/// from the renderer's panics: the ranges lie within the source and cut no
/// character, and the line numbers stay clear of the largest number.
#[verifier::external_body]
fn render(
    title: &str,
    excerpt: &Excerpt,
    context: (usize, usize),
    context_label: &str,
    primary: &Vec<(usize, usize)>,
    primary_label: &str,
) -> (text: String)
    requires
        lines_fit(*excerpt),
        fits(excerpt.source@, context),
        forall|i: int| 0 <= i < primary@.len() ==> fits(excerpt.source@, #[trigger] primary@[i]),
{
    let marks = primary.iter().map(|r| AnnotationKind::Primary.span(r.0..r.1).label(primary_label));
    let code = Snippet::source(excerpt.source.as_str())
        .path(excerpt.path.as_str())
        .line_start(excerpt.line)
        .annotation(AnnotationKind::Context.span(context.0..context.1).label(context_label))
        .annotations(marks);
    Renderer::styled().render(&[Level::ERROR.primary_title(title).element(code)])
}

impl PanicSpots {
    /// The record at `i` can be rendered from `src`.
    pub open spec fn renders(&self, src: &SourceCode, i: int) -> bool {
        layout_of(src@, self@[i].decl, self@[i]).is_ok()
    }

    /// Renders the report of each record, in the order of the records. The
    /// first record that cannot be rendered ends the run with its reason.
    pub fn emit(&self, src: &SourceCode) -> (out: Result<Vec<String>, EmitError>)
        requires
            self.wf(),
        ensures
            match out {
                Ok(texts) => {
                    &&& texts@.len() == self@.len()
                    &&& forall|i: int| 0 <= i < self@.len() ==> self.renders(src, i)
                },
                Err(e) => exists|i: int|
                    {
                        &&& 0 <= i < self@.len()
                        &&& layout_of(src@, self@[i].decl, self@[i]) == Err::<LayoutView, EmitError>(e)
                        &&& forall|j: int| 0 <= j < i ==> self.renders(src, j)
                    },
            },
    {
        let mut texts: Vec<String> = Vec::new();
        let n = self.len();
        let mut i: usize = 0;
        while i < n
            invariant
                i <= n,
                n == self@.len(),
                self.wf(),
                texts@.len() == i,
                forall|j: int| 0 <= j < i ==> self.renders(src, j),
            decreases n - i,
        {
            if let Some(spots) = self.get(i) {
                let check = CheckPanic::new(spots.decl, &spots, src);
                match check.emit() {
                    Ok(text) => {
                        texts.push(text);
                    },
                    Err(e) => {
                        return Err(e);
                    },
                }
            }
            i = i + 1;
        }
        Ok(texts)
    }
}

} // verus!
