//! The rows of the benchmark results.

use crate::text::{decimal, decimal_spec};
use vstd::prelude::*;
use vstd::string::*;

verus! {

/// The header of the benchmark results.
pub const BENCH_HEADER: &'static str =
    "structure,dataset,filter,n_points,n_queries,metric,lanes,ns_per_op";

/// The header of the results of the voxel-width sweep.
pub const SWEEP_HEADER: &'static str = "robot,voxel_width,ns_per_query,is_r_max";

/// Fields shared by every row of the benchmark results for one structure and workload.
#[derive(Clone, Copy, Debug)]
pub struct RowContext<'a> {
    pub structure: &'a str,
    pub workload: &'a str,
    pub filter_name: &'a str,
    pub n_points: usize,
}

/// The text of a row of the benchmark results.
pub open spec fn row_spec(
    ctx: RowContext,
    n_queries: nat,
    metric: Seq<char>,
    lanes: nat,
    value: Seq<char>,
) -> Seq<char> {
    ctx.structure@ + ","@ + ctx.workload@ + ","@ + ctx.filter_name@ + ","@ + decimal_spec(
        ctx.n_points as nat,
    ) + ","@ + decimal_spec(n_queries) + ","@ + metric + ","@ + decimal_spec(lanes) + ","@ + value
}

/// Write a row of the benchmark results. `value` is the measured value as it is to be written.
pub fn row(ctx: RowContext, n_queries: usize, metric: &str, lanes: usize, value: &str) -> (s:
    String)
    ensures
        s@ == row_spec(ctx, n_queries as nat, metric@, lanes as nat, value@),
{
    let mut s: String = ctx.structure.to_owned();
    s.append(",");
    s.append(ctx.workload);
    s.append(",");
    s.append(ctx.filter_name);
    s.append(",");
    s.append(decimal(ctx.n_points).as_str());
    s.append(",");
    s.append(decimal(n_queries).as_str());
    s.append(",");
    s.append(metric);
    s.append(",");
    s.append(decimal(lanes).as_str());
    s.append(",");
    s.append(value);
    s
}

/// Write the row for the time that it took to construct a structure.
pub fn construction_row(ctx: RowContext, n_queries: usize, ns: &str) -> (s: String)
    ensures
        s@ == row_spec(ctx, n_queries as nat, "construction"@, 1, ns@),
{
    row(ctx, n_queries, "construction", 1, ns)
}

/// Write the row for the memory that a structure uses.
pub fn memory_row(ctx: RowContext, bytes: usize) -> (s: String)
    ensures
        s@ == row_spec(ctx, 0, "memory"@, 1, decimal_spec(bytes as nat)),
{
    row(ctx, 0, "memory", 1, decimal(bytes).as_str())
}

/// Write the row for one candidate of the voxel-width sweep.
pub fn sweep_row(robot: &str, width: &str, mean_ns: &str, is_r_max: bool) -> (s: String)
    ensures
        s@ == robot@ + ","@ + width@ + ","@ + mean_ns@ + ","@ + (if is_r_max {
            "1"@
        } else {
            "0"@
        }),
{
    let mut s: String = robot.to_owned();
    s.append(",");
    s.append(width);
    s.append(",");
    s.append(mean_ns);
    s.append(",");
    s.append(
        if is_r_max {
            "1"
        } else {
            "0"
        },
    );
    s
}

/// A sphere, by the text of its coordinates and radius.
#[derive(Clone, Debug)]
pub struct SphereText {
    pub x: String,
    pub y: String,
    pub z: String,
    pub r: String,
}

/// The line for a sphere in an array of spheres, with a comma unless it is the last.
pub open spec fn sphere_line_spec(sphere: SphereText, last: bool) -> Seq<char> {
    "  {\"x\": "@ + sphere.x@ + ", \"y\": "@ + sphere.y@ + ", \"z\": "@ + sphere.z@ + ", \"r\": "@
        + sphere.r@ + if last {
        "}"@
    } else {
        "},"@
    }
}

fn sphere_line(sphere: &SphereText, last: bool) -> (s: String)
    ensures
        s@ == sphere_line_spec(*sphere, last),
{
    let mut s: String = "  {\"x\": ".to_owned();
    s.append(sphere.x.as_str());
    s.append(", \"y\": ");
    s.append(sphere.y.as_str());
    s.append(", \"z\": ");
    s.append(sphere.z.as_str());
    s.append(", \"r\": ");
    s.append(sphere.r.as_str());
    s.append(
        if last {
            "}"
        } else {
            "},"
        },
    );
    s
}

/// Write spheres as the lines of a JSON array of objects.
pub fn sphere_lines(spheres: &Vec<SphereText>) -> (lines: Vec<String>)
    ensures
        lines@.len() == spheres@.len() + 2,
        lines@[0]@ == "["@,
        forall|i: int|
            #![trigger lines@[i + 1]]
            0 <= i < spheres@.len() ==> lines@[i + 1]@ == sphere_line_spec(
                spheres@[i],
                i + 1 == spheres@.len(),
            ),
        lines@.last()@ == "]"@,
{
    let mut lines: Vec<String> = Vec::new();
    lines.push("[".to_owned());
    let mut i: usize = 0;
    while i < spheres.len()
        invariant
            i <= spheres.len(),
            lines@.len() == i + 1,
            lines@[0]@ == "["@,
            forall|j: int|
                #![trigger lines@[j + 1]]
                0 <= j < i ==> lines@[j + 1]@ == sphere_line_spec(
                    spheres@[j],
                    j + 1 == spheres@.len(),
                ),
        decreases spheres.len() - i,
    {
        lines.push(sphere_line(&spheres[i], i + 1 == spheres.len()));
        i += 1;
    }
    lines.push("]".to_owned());
    lines
}

} // verus!
