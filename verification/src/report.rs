//! What an index and a search have to report, as fields and as rows of
//! text.
use vstd::prelude::*;
use vstd::string::*;
use crate::optimizer::{stat_views, RMIStatistics, Stats, LOG2_ERROR_ONE};
use crate::rmi::TrainedRMI;
use crate::text::{decimal, decimal_string, pad_left, padded};
use crate::train::ValidationResults;

verus! {

/// The value of one field of a report.
#[derive(Debug)]
pub enum JsonField {
    Number(u64),
    /// A number that is written out as it stands here, in decimal digits.
    Decimal(String),
    Text(String),
    Texts(Vec<String>),
    Flag(bool),
}

/// The value of a field, as a mathematical value.
pub ghost enum FieldView {
    Number(u64),
    Decimal(Seq<char>),
    Text(Seq<char>),
    Texts(Seq<Seq<char>>),
    Flag(bool),
}

impl View for JsonField {
    type V = FieldView;

    open spec fn view(&self) -> FieldView {
        match self {
            JsonField::Number(n) => FieldView::Number(*n),
            JsonField::Decimal(s) => FieldView::Decimal(s@),
            JsonField::Text(s) => FieldView::Text(s@),
            JsonField::Texts(v) => FieldView::Texts(Seq::new(v@.len(), |i: int| v@[i]@)),
            JsonField::Flag(b) => FieldView::Flag(*b),
        }
    }
}

/// The fields of a report, each under its name, in order.
#[derive(Debug)]
pub struct JsonObject {
    pub fields: Vec<(String, JsonField)>,
}

impl View for JsonObject {
    type V = Seq<(Seq<char>, FieldView)>;

    open spec fn view(&self) -> Seq<(Seq<char>, FieldView)> {
        Seq::new(self.fields@.len(), |i: int| (self.fields@[i].0@, self.fields@[i].1@))
    }
}

impl JsonObject {
    fn new() -> (r: JsonObject)
        ensures
            r@ == Seq::<(Seq<char>, FieldView)>::empty(),
    {
        let r = JsonObject { fields: Vec::new() };
        assert(r@ =~= Seq::empty());
        r
    }

    fn put(&mut self, name: &str, value: JsonField)
        ensures
            final(self)@ == old(self)@.push((name@, value@)),
    {
        self.fields.push((String::from_str(name), value));
        assert(self@ =~= old(self)@.push((name@, value@)));
    }
}

/// Each number written in decimal digits.
pub open spec fn decimals(numbers: Seq<u64>) -> Seq<Seq<char>> {
    Seq::new(numbers.len(), |i: int| decimal(numbers[i] as nat))
}

fn decimal_strings(numbers: &Vec<u64>) -> (r: JsonField)
    ensures
        r@ == FieldView::Texts(decimals(numbers@)),
{
    let mut texts: Vec<String> = Vec::new();
    let mut i: usize = 0;
    while i < numbers.len()
        invariant
            i <= numbers@.len(),
            texts@.len() == i,
            forall|j: int| 0 <= j < i ==> texts@[j]@ == decimal(numbers@[j] as nat),
        decreases numbers@.len() - i,
    {
        texts.push(decimal_string(numbers[i] as u128));
        i += 1;
    }
    let r = JsonField::Texts(texts);
    assert(r@->Texts_0 =~= decimals(numbers@));
    r
}

/// The report of a trained index: its counts and its largest error as
/// numbers; its totals as numbers in decimal digits; its branching factor
/// and its build time as texts of decimal digits; the radii of its leaves
/// and of the layer above them, each as such a text; and its layer list.
pub open spec fn trained_json(rmi: TrainedRMI) -> Seq<(Seq<char>, FieldView)> {
    seq![
        ("num_rmi_rows"@, FieldView::Number(rmi.num_rmi_rows as u64)),
        ("num_data_rows"@, FieldView::Number(rmi.num_data_rows as u64)),
        ("model_total_error"@, FieldView::Decimal(decimal(rmi.model_total_error as nat))),
        ("model_total_l2_error"@, FieldView::Decimal(decimal(rmi.model_total_l2_error as nat))),
        ("model_total_log2_error"@, FieldView::Decimal(decimal(rmi.model_total_log2_error as nat))),
        ("model_max_error"@, FieldView::Number(rmi.model_max_error)),
        ("model_max_error_idx"@, FieldView::Number(rmi.model_max_error_idx as u64)),
        ("model_max_log2_error"@, FieldView::Number(rmi.model_max_log2_error)),
        ("last_layer_max_l1s"@, FieldView::Texts(decimals(rmi.last_layer_max_l1s@))),
        ("third_layer_max_l1s"@, FieldView::Texts(decimals(rmi.third_layer_max_l1s@))),
        ("models"@, FieldView::Text(rmi.models@)),
        ("branching_factor"@, FieldView::Text(decimal(rmi.branching_factor as nat))),
        ("build_time"@, FieldView::Text(decimal(rmi.build_time as nat))),
    ]
}

impl TrainedRMI {
    /// The report of the index. The layers and the spline are left out.
    pub fn to_json(&self) -> (r: JsonObject)
        ensures
            r@ == trained_json(*self),
    {
        let mut r = JsonObject::new();
        r.put("num_rmi_rows", JsonField::Number(self.num_rmi_rows as u64));
        r.put("num_data_rows", JsonField::Number(self.num_data_rows as u64));
        r.put("model_total_error", JsonField::Decimal(decimal_string(self.model_total_error)));
        r.put("model_total_l2_error", JsonField::Decimal(decimal_string(self.model_total_l2_error)));
        r.put(
            "model_total_log2_error",
            JsonField::Decimal(decimal_string(self.model_total_log2_error)),
        );
        r.put("model_max_error", JsonField::Number(self.model_max_error));
        r.put("model_max_error_idx", JsonField::Number(self.model_max_error_idx as u64));
        r.put("model_max_log2_error", JsonField::Number(self.model_max_log2_error));
        r.put("last_layer_max_l1s", decimal_strings(&self.last_layer_max_l1s));
        r.put("third_layer_max_l1s", decimal_strings(&self.third_layer_max_l1s));
        r.put("models", JsonField::Text(self.models.clone()));
        r.put("branching_factor", JsonField::Text(decimal_string(self.branching_factor as u128)));
        r.put("build_time", JsonField::Text(decimal_string(self.build_time)));
        assert(r@ =~= trained_json(*self));
        r
    }
}

/// The report of a trainer that may not have run.
pub open spec fn optional_json(rmi: Option<TrainedRMI>) -> Option<Seq<(Seq<char>, FieldView)>> {
    match rmi {
        Some(rmi) => Some(trained_json(rmi)),
        None => None,
    }
}

/// What a list of optional reports holds.
pub open spec fn report_views(reports: Seq<(String, Option<JsonObject>)>) -> Seq<
    (Seq<char>, Option<Seq<(Seq<char>, FieldView)>>),
> {
    Seq::new(
        reports.len(),
        |i: int|
            (
                reports[i].0@,
                match reports[i].1 {
                    Some(object) => Some(object@),
                    None => None,
                },
            ),
    )
}

/// The reports of the five trainers, each under its trainer's name; a
/// trainer that did not run has none.
pub open spec fn validation_json(v: ValidationResults) -> Seq<
    (Seq<char>, Option<Seq<(Seq<char>, FieldView)>>),
> {
    seq![
        ("multi_layer"@, Some(trained_json(v.multi_layer))),
        ("two_layer"@, optional_json(v.two_layer)),
        ("three_layer"@, optional_json(v.three_layer)),
        ("naive_three_layer"@, optional_json(v.naive_three_layer)),
        ("partial_three_layer"@, optional_json(v.partial_three_layer)),
    ]
}

fn optional_report(rmi: &Option<TrainedRMI>) -> (r: Option<JsonObject>)
    ensures
        match r {
            Some(object) => Some(object@),
            None => None,
        } == optional_json(*rmi),
{
    match rmi {
        Some(rmi) => Some(rmi.to_json()),
        None => None,
    }
}

impl ValidationResults {
    pub fn to_json(&self) -> (r: Vec<(String, Option<JsonObject>)>)
        ensures
            report_views(r@) == validation_json(*self),
    {
        let mut r: Vec<(String, Option<JsonObject>)> = Vec::new();
        r.push((String::from_str("multi_layer"), Some(self.multi_layer.to_json())));
        r.push((String::from_str("two_layer"), optional_report(&self.two_layer)));
        r.push((String::from_str("three_layer"), optional_report(&self.three_layer)));
        r.push((String::from_str("naive_three_layer"), optional_report(&self.naive_three_layer)));
        r.push(
            (String::from_str("partial_three_layer"), optional_report(&self.partial_three_layer)),
        );
        assert(report_views(r@) =~= validation_json(*self));
        r
    }
}

/// A mean error written with five decimals: the units of `2^-32` as whole
/// bits, a point, and the hundred-thousandths, rounded down.
pub open spec fn fixed5(v: u64) -> Seq<char> {
    decimal((v / LOG2_ERROR_ONE) as nat) + seq!['.'] + padded(
        decimal((((v % LOG2_ERROR_ONE) * 100000) / (LOG2_ERROR_ONE as int)) as nat),
        '0',
        5,
    )
}

pub fn fixed5_string(v: u64) -> (r: String)
    ensures
        r@ == fixed5(v),
{
    let whole: u64 = v / LOG2_ERROR_ONE;
    let part: u64 = ((v % LOG2_ERROR_ONE) * 100000) / LOG2_ERROR_ONE;
    let mut r = decimal_string(whole as u128);
    r.append(".");
    let digits = decimal_string(part as u128);
    let tail = pad_left(digits.as_str(), true, 5);
    r.append(tail.as_str());
    proof {
        reveal_strlit(".");
        assert("."@ =~= seq!['.']);
    }
    r
}

/// The entry of one configuration in the file of the search's results.
pub open spec fn grid_spec(stats: Stats, namespace: Seq<char>) -> Seq<(Seq<char>, FieldView)> {
    seq![
        ("layers"@, FieldView::Text(stats.models)),
        ("branching factor"@, FieldView::Number(stats.branching_factor)),
        ("namespace"@, FieldView::Text(namespace)),
        ("size"@, FieldView::Number(stats.size)),
        ("average log2 error"@, FieldView::Decimal(fixed5(stats.average_log2_error))),
        ("binary"@, FieldView::Flag(true)),
    ]
}

/// Five spaces before `text`.
pub open spec fn indented(text: Seq<char>) -> Seq<char> {
    "     "@ + text
}

/// The row of one configuration in the table of results.
pub open spec fn table_row(stats: Stats) -> Seq<Seq<char>> {
    seq![
        stats.models,
        padded(decimal(stats.branching_factor as nat), ' ', 10),
        indented(fixed5(stats.average_log2_error)),
        indented(decimal(stats.max_log2_error as nat)),
        indented(decimal(stats.size as nat)),
    ]
}

/// The head of the table of results.
pub open spec fn table_head() -> Seq<Seq<char>> {
    seq!["Models"@, "Branch"@, "   AvgLg2"@, "   MaxLg2"@, "   Size (b)"@]
}

/// What each cell of a table holds.
pub open spec fn cells(rows: Seq<Vec<String>>) -> Seq<Seq<Seq<char>>> {
    Seq::new(rows.len(), |i: int| Seq::new(rows[i]@.len(), |j: int| rows[i]@[j]@))
}

/// The table of results: the head, then one row for each configuration.
pub open spec fn table(items: Seq<Stats>) -> Seq<Seq<Seq<char>>> {
    seq![table_head()] + Seq::new(items.len(), |i: int| table_row(items[i]))
}

fn indent(text: String) -> (r: String)
    ensures
        r@ == indented(text@),
{
    let mut r = String::from_str("     ");
    r.append(text.as_str());
    r
}

impl RMIStatistics {
    /// The rows of the table of results, cell by cell, for the caller to
    /// lay out and print.
    pub fn display_table(itms: &[RMIStatistics]) -> (rows: Vec<Vec<String>>)
        ensures
            cells(rows@) == table(stat_views(itms@)),
    {
        let mut rows: Vec<Vec<String>> = Vec::new();
        let mut head: Vec<String> = Vec::new();
        head.push(String::from_str("Models"));
        head.push(String::from_str("Branch"));
        head.push(String::from_str("   AvgLg2"));
        head.push(String::from_str("   MaxLg2"));
        head.push(String::from_str("   Size (b)"));
        rows.push(head);
        let ghost items = stat_views(itms@);
        let mut i: usize = 0;
        proof {
            assert(cells(rows@)[0] =~= table_head());
        }
        while i < itms.len()
            invariant
                i <= itms@.len(),
                items == stat_views(itms@),
                rows@.len() == i + 1,
                cells(rows@)[0] == table_head(),
                forall|k: int| 0 <= k < i ==> cells(rows@)[k + 1] == table_row(items[k]),
            decreases itms@.len() - i,
        {
            let itm = &itms[i];
            let mut row: Vec<String> = Vec::new();
            let branch = decimal_string(itm.branching_factor as u128);
            row.push(itm.models.clone());
            row.push(pad_left(branch.as_str(), false, 10));
            row.push(indent(fixed5_string(itm.average_log2_error)));
            row.push(indent(decimal_string(itm.max_log2_error as u128)));
            row.push(indent(decimal_string(itm.size as u128)));
            let ghost before = cells(rows@);
            rows.push(row);
            proof {
                assert(items[i as int] == itms@[i as int]@);
                assert(cells(rows@)[i + 1] =~= table_row(items[i as int]));
                assert forall|k: int| 0 <= k < i implies cells(rows@)[k + 1] == table_row(
                    items[k],
                ) by {
                    assert(cells(rows@)[k + 1] =~= before[k + 1]);
                }
                assert(cells(rows@)[0] =~= before[0]);
            }
            i += 1;
        }
        proof {
            let want = table(items);
            assert forall|k: int| 0 <= k < want.len() implies cells(rows@)[k] == want[k] by {
                if k > 0 {
                    assert(cells(rows@)[k - 1 + 1] == table_row(items[k - 1]));
                }
            }
            assert(cells(rows@) =~= want);
        }
        rows
    }

    /// The entry of the configuration in the file of the search's results.
    pub fn to_grid_spec(&self, namespace: &str) -> (r: JsonObject)
        ensures
            r@ == grid_spec(self@, namespace@),
    {
        let mut r = JsonObject::new();
        r.put("layers", JsonField::Text(self.models.clone()));
        r.put("branching factor", JsonField::Number(self.branching_factor));
        r.put("namespace", JsonField::Text(String::from_str(namespace)));
        r.put("size", JsonField::Number(self.size));
        r.put("average log2 error", JsonField::Decimal(fixed5_string(self.average_log2_error)));
        r.put("binary", JsonField::Flag(true));
        assert(r@ =~= grid_spec(self@, namespace@));
        r
    }
}

} // verus!
