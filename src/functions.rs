//! The functions that templates call: the featured filter and the
//! markdown conversion.
use vstd::prelude::*;

verus! {

/// The items of `articles` whose flag is set, in their original order.
pub open spec fn featured_of<T>(articles: Seq<(bool, T)>) -> Seq<T>
    decreases articles.len(),
{
    if articles.len() == 0 {
        Seq::empty()
    } else {
        let rest = featured_of(articles.drop_last());
        if articles.last().0 {
            rest.push(articles.last().1)
        } else {
            rest
        }
    }
}

/// Keeps the articles whose `featured` flag is set, in their order.
///
/// Each article comes with its flag (`true` exactly when its `featured`
/// field is the boolean `true`). An absent or ill-typed `articles`
/// argument is `None` and gives an empty sequence.
pub fn featured<T>(articles: Option<Vec<(bool, T)>>) -> (r: Vec<T>)
    ensures
        match articles {
            Some(a) => r@ == featured_of(a@),
            None => r@ == Seq::<T>::empty(),
        },
{
    let mut r: Vec<T> = Vec::new();
    match articles {
        None => {},
        Some(a) => {
            let ghost all = a@;
            for item in it: a.into_iter()
                invariant
                    it.seq() == all,
                    r@ == featured_of(all.take(it.index() as int)),
            {
                proof {
                    assert(all.take(it.index() + 1).drop_last() == all.take(it.index() as int));
                }
                let (flag, article) = item;
                if flag {
                    r.push(article);
                }
            }
            proof {
                assert(all.take(all.len() as int) == all);
            }
        },
    }
    r
}

/// The HTML that pulldown-cmark renders from a markdown text, with all of
/// its extensions switched on.
pub uninterp spec fn commonmark_html(markdown: Seq<char>) -> Seq<char>;

/// Relies on `pulldown_cmark::Parser::new_ext` with `Options::all()` and
/// `pulldown_cmark::html::push_html` into an empty string: the HTML depends on
/// the text alone.
#[verifier::external_body]
fn render_commonmark(markdown: &str) -> (html: String)
    ensures
        html@ == commonmark_html(markdown@),
{
    let mut html = String::new();
    let parser = pulldown_cmark::Parser::new_ext(markdown, pulldown_cmark::Options::all());
    pulldown_cmark::html::push_html(&mut html, parser);
    html
}

/// Converts a markdown argument into HTML. An absent or ill-typed
/// argument is `None`, and so is the result: the caller picks the
/// sentinel it stands for.
pub fn markdown_to_html(markdown: Option<&str>) -> (r: Option<String>)
    ensures
        match markdown {
            Some(m) => r is Some && r->0@ == commonmark_html(m@),
            None => r is None,
        },
{
    match markdown {
        Some(m) => Some(render_commonmark(m)),
        None => None,
    }
}

} // verus!
