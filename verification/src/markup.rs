//! The HTML of the date controls.

use vstd::prelude::*;
use vstd::relations::*;
use vstd::string::*;

use crate::text::{
    lemma_sorted_unique, lemma_text_le_antisymmetric, lemma_text_le_total,
    lemma_text_le_transitive, lemma_text_order_total, occurs_at, same_text, text_le, text_le_str,
    text_order,
};

verus! {

/// One `<option>` of the start-date list; the selected date is marked.
pub open spec fn option_html(date: Seq<char>, selected: Seq<char>) -> Seq<char> {
    if date == selected {
        "<option value=\""@ + date + "\" selected>"@ + date + "</option>"@
    } else {
        "<option value=\""@ + date + "\">"@ + date + "</option>"@
    }
}

/// The options for `dates`, in their order.
pub open spec fn options_html(dates: Seq<Seq<char>>, selected: Seq<char>) -> Seq<char>
    decreases dates.len(),
{
    if dates.len() == 0 {
        Seq::empty()
    } else {
        options_html(dates.drop_last(), selected) + option_html(dates.last(), selected)
    }
}

/// The start-date list: an option for each date, in text order, which for
/// `YYYY-MM-DD` dates is the order of time.
pub open spec fn base_date_select_html(dates: Seq<Seq<char>>, selected: Seq<char>) -> Seq<char> {
    "<select class=\"date-control\" aria-label=\"Select semester start date\">"@ + options_html(
        dates.sort_by(text_order()),
        selected,
    ) + "</select>"@
}

/// `dates` in text order.
fn sorted_dates(dates: &[String]) -> (r: Vec<String>)
    ensures
        r.deep_view() == dates.deep_view().sort_by(text_order()),
{
    let ghost dv = dates.deep_view();
    let mut sorted: Vec<String> = Vec::new();
    let mut i: usize = 0;
    assert(dv.take(0) =~= sorted.deep_view());
    while i < dates.len()
        invariant
            i <= dates.len(),
            dv == dates.deep_view(),
            sorted_by(sorted.deep_view(), text_order()),
            sorted.deep_view().to_multiset() == dv.take(i as int).to_multiset(),
        decreases dates.len() - i,
    {
        broadcast use vstd::seq_lib::group_to_multiset_ensures;

        let date = dates[i].as_str();
        let ghost old_view = sorted.deep_view();
        let mut p: usize = 0;
        while p < sorted.len() && text_le_str(sorted[p].as_str(), date)
            invariant
                p <= sorted.len(),
                old_view == sorted.deep_view(),
                forall|j: int| 0 <= j < p ==> text_le(old_view[j], date@),
            decreases sorted.len() - p,
        {
            p = p + 1;
        }
        proof {
            if p < sorted.len() {
                lemma_text_le_total(old_view[p as int], date@);
            }
        }
        sorted.insert(p, dates[i].clone());
        let ghost new_view = sorted.deep_view();
        assert(new_view =~= old_view.insert(p as int, date@));
        assert forall|x: int, y: int| 0 <= x < y < new_view.len() implies #[trigger] text_order()(
            new_view[x],
            new_view[y],
        ) by {
            if y < p {
                assert(text_order()(old_view[x], old_view[y]));
            } else if y == p {
            } else if x < p {
                if p < old_view.len() {
                    assert(text_order()(date@, old_view[p as int]));
                }
                if p < y - 1 {
                    assert(text_order()(old_view[p as int], old_view[y - 1]));
                    lemma_text_le_transitive(date@, old_view[p as int], old_view[y - 1]);
                }
                lemma_text_le_transitive(old_view[x], date@, old_view[y - 1]);
            } else if x == p {
                if p < y - 1 {
                    assert(text_order()(old_view[p as int], old_view[y - 1]));
                    lemma_text_le_transitive(date@, old_view[p as int], old_view[y - 1]);
                }
            } else {
                assert(text_order()(old_view[x - 1], old_view[y - 1]));
            }
        }
        assert(new_view.remove(p as int) =~= old_view);
        assert(new_view[p as int] == date@);
        assert(new_view.contains(date@));
        assert(new_view.to_multiset() =~= old_view.to_multiset().insert(date@));
        assert(dv.take(i + 1) =~= dv.take(i as int).push(dv[i as int]));
        i = i + 1;
    }
    assert(dv.take(dates.len() as int) =~= dv);
    proof {
        lemma_text_order_total();
        dv.lemma_sort_by_ensures(text_order());
        lemma_sorted_unique(sorted.deep_view(), dv.sort_by(text_order()));
    }
    sorted
}

/// The start-date `<select>`, with `selected_date` selected.
pub fn render_base_date_select(dates: &[String], selected_date: &str) -> (r: String)
    ensures
        r@ == base_date_select_html(dates.deep_view(), selected_date@),
{
    let sorted = sorted_dates(dates);
    let ghost sv = sorted.deep_view();
    let mut out = String::from_str(
        "<select class=\"date-control\" aria-label=\"Select semester start date\">",
    );
    let ghost prefix = out@;
    let mut k: usize = 0;
    assert(sv.take(0) =~= Seq::<Seq<char>>::empty());
    while k < sorted.len()
        invariant
            k <= sorted.len(),
            sv == sorted.deep_view(),
            out@ == prefix + options_html(sv.take(k as int), selected_date@),
        decreases sorted.len() - k,
    {
        let date = sorted[k].as_str();
        assert(sv.take(k + 1).drop_last() =~= sv.take(k as int));
        out.append("<option value=\"");
        out.append(date);
        if same_text(date, selected_date) {
            out.append("\" selected>");
        } else {
            out.append("\">");
        }
        out.append(date);
        out.append("</option>");
        k = k + 1;
        assert(out@ =~= prefix + options_html(sv.take(k as int), selected_date@));
    }
    assert(sv.take(sorted.len() as int) =~= sv);
    out.append("</select>");
    out
}

/// The date input, set to `selected_date` and labelled `label`.
pub fn render_date_picker(selected_date: &str, label: &str) -> (r: String)
    ensures
        r@ == "<input class=\"date-control\" type=\"date\" value=\""@ + selected_date@
            + "\" aria-label=\""@ + label@ + "\">"@,
{
    let mut out = String::from_str("<input class=\"date-control\" type=\"date\" value=\"");
    out.append(selected_date);
    out.append("\" aria-label=\"");
    out.append(label);
    out.append("\">");
    out
}

/// A date control's contents: the date as text, then the control itself.
pub fn render_date_value(date: &str, control: &str) -> (r: String)
    ensures
        r@ == "<span class=\"date-current\">"@ + date@ + "</span>"@ + control@,
{
    let mut out = String::from_str("<span class=\"date-current\">");
    out.append(date);
    out.append("</span>");
    out.append(control);
    out
}

/// The option a list offers for `date`: its value and text are the date,
/// and it is marked ` selected` exactly when the date is `selected`.
pub open spec fn offered_option(date: Seq<char>, selected: Seq<char>) -> Seq<char> {
    "<option value=\""@ + date + (if date == selected {
        "\" selected>"@
    } else {
        "\">"@
    }) + date + "</option>"@
}

proof fn lemma_option_written(date: Seq<char>, selected: Seq<char>)
    ensures
        option_html(date, selected) == offered_option(date, selected),
        option_html(date, selected).len() > 0,
{
    reveal_strlit("</option>");
    if date == selected {
        assert(option_html(date, selected) =~= "<option value=\""@ + date + "\" selected>"@ + date
            + "</option>"@);
    } else {
        assert(option_html(date, selected) =~= "<option value=\""@ + date + "\">"@ + date
            + "</option>"@);
    }
}

proof fn lemma_options_contain(dates: Seq<Seq<char>>, selected: Seq<char>, k: int)
    requires
        0 <= k < dates.len(),
    ensures
        occurs_at(
            options_html(dates, selected),
            option_html(dates[k], selected),
            options_html(dates.take(k), selected).len() as int,
        ),
    decreases dates.len(),
{
    let init = dates.drop_last();
    let whole = options_html(dates, selected);
    let head = options_html(init, selected);
    assert(whole == head + option_html(dates.last(), selected));
    if k == dates.len() - 1 {
        assert(dates.take(k) =~= init);
        assert(whole.subrange(head.len() as int, whole.len() as int) =~= option_html(
            dates.last(),
            selected,
        ));
    } else {
        lemma_options_contain(init, selected, k);
        assert(init.take(k) =~= dates.take(k));
        assert(init[k] == dates[k]);
        let at = options_html(dates.take(k), selected).len() as int;
        let len = option_html(dates[k], selected).len() as int;
        assert(whole.subrange(at, at + len) =~= head.subrange(at, at + len));
    }
}

proof fn lemma_options_offsets_grow(dates: Seq<Seq<char>>, selected: Seq<char>, k1: int, k2: int)
    requires
        0 <= k1 < k2 <= dates.len(),
    ensures
        options_html(dates.take(k1), selected).len() < options_html(dates.take(k2), selected).len(),
    decreases k2,
{
    let prev = dates.take(k2 - 1);
    assert(dates.take(k2).drop_last() =~= prev);
    lemma_option_written(dates[k2 - 1], selected);
    if k1 < k2 - 1 {
        lemma_options_offsets_grow(dates, selected, k1, k2 - 1);
    }
}

/// Every configured date is offered in the start-date list, and its option
/// is marked ` selected` exactly when the date is the selected one, wherever
/// it falls in the list; the list is wrapped in the `<select>` element.
pub proof fn lemma_select_offers_every_date(dates: Seq<Seq<char>>, selected: Seq<char>)
    ensures
        forall|d: Seq<char>| #[trigger]
            dates.contains(d) ==> exists|i: int|
                #[trigger] occurs_at(
                    base_date_select_html(dates, selected),
                    offered_option(d, selected),
                    i,
                ),
        base_date_select_html(dates, selected).take(
            "<select class=\"date-control\" aria-label=\"Select semester start date\">"@.len() as int,
        ) == "<select class=\"date-control\" aria-label=\"Select semester start date\">"@,
        base_date_select_html(dates, selected).skip(
            base_date_select_html(dates, selected).len() - "</select>"@.len(),
        ) == "</select>"@,
{
    let prefix = "<select class=\"date-control\" aria-label=\"Select semester start date\">"@;
    let sorted = dates.sort_by(text_order());
    let body = options_html(sorted, selected);
    let html = base_date_select_html(dates, selected);
    assert(html == prefix + body + "</select>"@);
    lemma_text_order_total();
    dates.lemma_sort_by_ensures(text_order());
    assert forall|d: Seq<char>| #[trigger] dates.contains(d) implies exists|i: int|
        #[trigger] occurs_at(
            html,
            offered_option(d, selected),
            i,
        ) by {
        broadcast use vstd::seq_lib::group_to_multiset_ensures;

        assert(dates.to_multiset().count(d) > 0);
        assert(sorted.to_multiset().count(d) > 0);
        assert(sorted.contains(d));
        let k = choose|k: int| 0 <= k < sorted.len() && sorted[k] == d;
        lemma_options_contain(sorted, selected, k);
        lemma_option_written(d, selected);
        let at = options_html(sorted.take(k), selected).len() as int;
        let option = option_html(d, selected);
        assert(html.subrange(prefix.len() + at, prefix.len() + at + option.len()) =~= body.subrange(
            at,
            at + option.len(),
        ));
        assert(occurs_at(html, option, prefix.len() + at));
    }
    assert(html.take(prefix.len() as int) =~= prefix);
    assert(html.skip(html.len() - "</select>"@.len()) =~= "</select>"@);
}

/// The options come in text order: of two different configured dates, the
/// one that sorts first is offered first.
pub proof fn lemma_select_in_text_order(
    dates: Seq<Seq<char>>,
    selected: Seq<char>,
    d1: Seq<char>,
    d2: Seq<char>,
)
    requires
        dates.contains(d1),
        dates.contains(d2),
        d1 != d2,
        text_le(d1, d2),
    ensures
        exists|i1: int, i2: int|
            i1 < i2 && #[trigger] occurs_at(
                base_date_select_html(dates, selected),
                offered_option(d1, selected),
                i1,
            ) && #[trigger] occurs_at(
                base_date_select_html(dates, selected),
                offered_option(d2, selected),
                i2,
            ),
{
    broadcast use vstd::seq_lib::group_to_multiset_ensures;

    let prefix = "<select class=\"date-control\" aria-label=\"Select semester start date\">"@;
    let sorted = dates.sort_by(text_order());
    let body = options_html(sorted, selected);
    let html = base_date_select_html(dates, selected);
    assert(html == prefix + body + "</select>"@);
    lemma_text_order_total();
    dates.lemma_sort_by_ensures(text_order());
    assert(dates.to_multiset().count(d1) > 0);
    assert(dates.to_multiset().count(d2) > 0);
    assert(sorted.contains(d1));
    assert(sorted.contains(d2));
    let k1 = choose|k: int| 0 <= k < sorted.len() && sorted[k] == d1;
    let k2 = choose|k: int| 0 <= k < sorted.len() && sorted[k] == d2;
    if k2 < k1 {
        assert(text_order()(sorted[k2], sorted[k1]));
        lemma_text_le_antisymmetric(d1, d2);
    }
    assert(k1 < k2);
    lemma_options_offsets_grow(sorted, selected, k1, k2);
    lemma_options_contain(sorted, selected, k1);
    lemma_options_contain(sorted, selected, k2);
    lemma_option_written(d1, selected);
    lemma_option_written(d2, selected);
    let a1 = options_html(sorted.take(k1), selected).len() as int;
    let a2 = options_html(sorted.take(k2), selected).len() as int;
    let o1 = option_html(d1, selected);
    let o2 = option_html(d2, selected);
    assert(html.subrange(prefix.len() + a1, prefix.len() + a1 + o1.len()) =~= body.subrange(
        a1,
        a1 + o1.len(),
    ));
    assert(html.subrange(prefix.len() + a2, prefix.len() + a2 + o2.len()) =~= body.subrange(
        a2,
        a2 + o2.len(),
    ));
    assert(occurs_at(html, o1, prefix.len() + a1));
    assert(occurs_at(html, o2, prefix.len() + a2));
}

} // verus!
