//! How a status line is shown: the week with a badge for its parity.

use vstd::prelude::*;
use vstd::string::*;

use crate::date::{parity_word, week_number, week_status_text};
use crate::text::{
    chars_of, decimal, find_in_window, find_text, is_first_occurrence, lemma_decimal_digits,
    lemma_find_text, lemma_find_text_at, occurs_at, same_text,
};

verus! {

/// What the status element shows.
#[derive(Debug)]
pub enum StatusMarkup {
    /// Shown as plain text.
    Text(String),
    /// Shown as HTML.
    Html(String),
}

/// The badge caption for a parity word: the Chinese name of odd and even
/// weeks, any other word unchanged.
pub open spec fn badge_caption(parity: Seq<char>) -> Seq<char> {
    if parity == "odd"@ {
        "单周"@
    } else if parity == "even"@ {
        "双周"@
    } else {
        parity
    }
}

/// The HTML for a status line split into the week and its parity word.
pub open spec fn badge_html(week: Seq<char>, parity: Seq<char>) -> Seq<char> {
    week + " <span class=\"badge badge-"@ + parity + "\">"@ + badge_caption(parity) + "</span>"@
}

/// How `status` is shown: split at its first `": "` into the week and the
/// parity word, rendered with a badge; shown as it is when there is no `": "`.
pub open spec fn status_markup_spec(status: Seq<char>) -> StatusMarkupView {
    match find_text(status, ": "@) {
        None => StatusMarkupView::Text(status),
        Some(i) => StatusMarkupView::Html(badge_html(status.take(i), status.skip(i + 2))),
    }
}

/// The view of a [`StatusMarkup`].
pub enum StatusMarkupView {
    Text(Seq<char>),
    Html(Seq<char>),
}

impl View for StatusMarkup {
    type V = StatusMarkupView;

    open spec fn view(&self) -> StatusMarkupView {
        match self {
            StatusMarkup::Text(t) => StatusMarkupView::Text(t@),
            StatusMarkup::Html(h) => StatusMarkupView::Html(h@),
        }
    }
}

/// A status line with a `": "` is shown as HTML: the text before the first
/// `": "`, then a badge whose class names the word after it and whose caption
/// is 单周 for `odd`, 双周 for `even`, and the word itself otherwise. The
/// caption depends on that word alone.
pub proof fn lemma_status_badge_shape(status: Seq<char>, i: int)
    requires
        is_first_occurrence(status, ": "@, i),
    ensures
        status_markup_spec(status) == StatusMarkupView::Html(
            status.take(i) + " <span class=\"badge badge-"@ + status.skip(i + 2) + "\">"@ + (if status.skip(i + 2) == "odd"@ {
                "单周"@
            } else if status.skip(i + 2) == "even"@ {
                "双周"@
            } else {
                status.skip(i + 2)
            }) + "</span>"@,
        ),
{
    lemma_find_text_at(status, ": "@, i);
}

/// A status line without `": "` is shown as it is, as text.
pub proof fn lemma_status_plain_text(status: Seq<char>)
    requires
        forall|i: int| !occurs_at(status, ": "@, i),
    ensures
        status_markup_spec(status) == StatusMarkupView::Text(status),
{
    lemma_find_text(status, ": "@);
}

/// A week's status line is shown with a badge: the week, then the badge of
/// its parity, which reads 单周 for an odd week and 双周 for an even one.
pub proof fn lemma_week_status_badge(days: int)
    requires
        days >= 0,
    ensures
        status_markup_spec(week_status_text(days)) == StatusMarkupView::Html(
            badge_html(
                "Week "@ + decimal(week_number(days) as nat),
                parity_word(week_number(days)),
            ),
        ),
        badge_caption(parity_word(week_number(days))) == if week_number(days) % 2 == 0 {
            "双周"@
        } else {
            "单周"@
        },
{
    reveal_strlit("Week ");
    reveal_strlit(": ");
    reveal_strlit("odd");
    reveal_strlit("even");
    let w = week_number(days);
    let digits = decimal(w as nat);
    let parity = parity_word(w);
    let s = "Week "@ + digits + ": "@ + parity;
    assert(s == week_status_text(days));
    lemma_decimal_digits(w as nat);
    let at: int = 5 + digits.len() as int;
    assert(s.subrange(at, at + 2) =~= ": "@);
    assert forall|j: int| 0 <= j < at implies !occurs_at(s, ": "@, j) by {
        if occurs_at(s, ": "@, j) {
            assert(s.subrange(j, j + 2)[0] == s[j]);
            if j >= 5 {
                assert(s[j] == digits[j - 5]);
            }
        }
    }
    lemma_find_text_at(s, ": "@, at);
    assert(s.take(at) =~= "Week "@ + digits);
    assert(s.skip(at + 2) =~= parity);
    assert("even"@.len() != "odd"@.len());
}

/// The status line for a date before the start has no `": "` and is shown as
/// plain text.
pub proof fn lemma_before_start_shown_as_text()
    ensures
        status_markup_spec("Before start date"@) == StatusMarkupView::Text("Before start date"@),
{
    reveal_strlit("Before start date");
    reveal_strlit(": ");
    let s = "Before start date"@;
    assert forall|j: int| !occurs_at(s, ": "@, j) by {
        if occurs_at(s, ": "@, j) {
            assert(s.subrange(j, j + 2)[0] == s[j]);
        }
    }
    lemma_find_text(s, ": "@);
}

/// Renders a status line for display.
pub fn status_markup(status: &str) -> (r: StatusMarkup)
    ensures
        r@ == status_markup_spec(status@),
{
    let sv = chars_of(status);
    let separator = ": ";
    let nv = chars_of(separator);
    let n = sv.len();
    assert(sv@.subrange(0, n as int) =~= sv@);
    let found = find_in_window(&sv, 0, n, &nv);
    match found {
        None => StatusMarkup::Text(String::from_str(status)),
        Some(i) => {
            proof {
                lemma_find_text(status@, separator@);
                reveal_strlit(": ");
            }
            let week = status.substring_char(0, i);
            let parity = status.substring_char(i + 2, n);
            assert(week@ =~= status@.take(i as int));
            assert(parity@ =~= status@.skip(i + 2));
            let mut out = String::from_str(week);
            out.append(" <span class=\"badge badge-");
            out.append(parity);
            out.append("\">");
            if same_text(parity, "odd") {
                out.append("单周");
            } else if same_text(parity, "even") {
                out.append("双周");
            } else {
                out.append(parity);
            }
            out.append("</span>");
            StatusMarkup::Html(out)
        },
    }
}

} // verus!
