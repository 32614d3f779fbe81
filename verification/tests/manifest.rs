use mvtable::manifest::{
    group_by_robot, manifest_row, parse_row, points_file, queries_file, read_workloads,
    scene_prefix, ManifestError, Workload,
};
use mvtable::report::{
    construction_row, memory_row, row, sphere_lines, sweep_row, RowContext, SphereText,
};
use mvtable::robots::{
    is_known, mobile_max_radius, robot_max_radius, true_max_query_radius, voxel_width,
};
use mvtable::text::{columns_of, decimal, same_text};

fn lines(text: &str) -> Vec<String> {
    text.lines().map(|l| l.to_owned()).collect()
}

fn workload(dataset: &str, robot: &str, scene_id: &str) -> Workload {
    Workload {
        dataset: dataset.to_owned(),
        robot: robot.to_owned(),
        scene_id: scene_id.to_owned(),
    }
}

#[test]
fn texts_are_compared_by_their_characters() {
    assert!(same_text("fetch", "fetch"));
    assert!(!same_text("fetch", "fetcH"));
    assert!(!same_text("fetch", "fetch "));
    assert!(same_text("", ""));
}

#[test]
fn numbers_in_decimal() {
    assert_eq!(decimal(0), "0");
    assert_eq!(decimal(10_203), "10203");
    assert_eq!(decimal(usize::MAX), format!("{}", usize::MAX));
}

#[test]
fn columns_of_a_line() {
    assert_eq!(columns_of("a,,c,d", 3), vec!["a", "", "c"]);
    assert_eq!(columns_of("a,b", 3), vec!["a", "b"]);
    assert_eq!(columns_of("", 2), vec![""]);
    assert_eq!(columns_of("x,", 2), vec!["x", ""]);
}

#[test]
fn manifest_lists_workloads() {
    let text = "dataset,robot,scene_id,rest\nbox,panda,1,x\ncage,ur5,2\nbox,panda,3,y,z";
    assert_eq!(
        read_workloads(&lines(text), None),
        Ok(vec![
            workload("box", "panda", "1"),
            workload("cage", "ur5", "2"),
            workload("box", "panda", "3"),
        ])
    );
    assert_eq!(
        read_workloads(&lines(text), Some(1)),
        Ok(vec![workload("box", "panda", "1"), workload("cage", "ur5", "2")])
    );
    assert_eq!(read_workloads(&lines(text), Some(0)), Ok(vec![]));
    assert_eq!(read_workloads(&[].to_vec(), None), Ok(vec![]));
}

#[test]
fn manifest_errors() {
    assert_eq!(
        read_workloads(&lines("header\nbox"), None),
        Err(ManifestError::MissingRobot)
    );
    assert_eq!(
        read_workloads(&lines("header\na,b,c\nbox,panda\nbox"), None),
        Err(ManifestError::MissingSceneId)
    );
    assert_eq!(
        ManifestError::MissingRobot.to_string(),
        "manifest row missing robot column"
    );
    assert_eq!(
        ManifestError::MissingSceneId.to_string(),
        "manifest row missing scene_id column"
    );
}

#[test]
fn manifest_row_reads_back() {
    let text = manifest_row("box", "panda", 17, 5_000, 120, 3, true);
    assert_eq!(text, "box,panda,17,5000,120,3,true");
    assert_eq!(parse_row(&text), Ok(workload("box", "panda", "17")));
    assert_eq!(
        manifest_row("cage", "ur5", 0, 1, 0, 0, false),
        "cage,ur5,0,1,0,0,false"
    );
}

#[test]
fn names_of_a_workload() {
    let w = workload("box", "panda", "17");
    assert_eq!(w.file_prefix(), "panda_box_17");
    assert_eq!(w.label(), "panda/box/17");
    assert_eq!(scene_prefix("panda", "box", 17), w.file_prefix());
    assert_eq!(points_file("panda_box_17"), "panda_box_17_points_full.bin");
    assert_eq!(queries_file("panda_box_17"), "panda_box_17_queries.bin");
}

#[test]
fn workloads_are_grouped_by_robot() {
    let list = vec![
        workload("a", "ur5", "1"),
        workload("b", "panda", "2"),
        workload("c", "ur5", "3"),
    ];
    assert_eq!(
        group_by_robot(&list),
        vec![("ur5".to_owned(), vec![0, 2]), ("panda".to_owned(), vec![1])]
    );
}

#[test]
fn radii_of_the_robots() {
    let all = ["panda", "ur5", "fetch", "baxter"];
    assert_eq!(all.map(mobile_max_radius), [6, 8, 15, 10]);
    assert_eq!(all.map(robot_max_radius), [8, 8, 24, 50]);
    assert_eq!(all.map(true_max_query_radius), [22, 35, 42, 60]);
    assert_eq!(all.map(voxel_width), [17_324, 22_427, 13_799, 17_075]);
    assert!(all.iter().all(|r| is_known(r)));
    assert!(!is_known("pr2"));
}

#[test]
fn benchmark_rows() {
    let ctx = RowContext {
        structure: "mvtable",
        workload: "panda/box/17",
        filter_name: "morton",
        n_points: 1_234,
    };
    assert_eq!(
        row(ctx, 80, "colliding", 8, "12.5"),
        "mvtable,panda/box/17,morton,1234,80,colliding,8,12.5"
    );
    assert_eq!(
        construction_row(ctx, 90, "1000"),
        "mvtable,panda/box/17,morton,1234,90,construction,1,1000"
    );
    assert_eq!(
        memory_row(ctx, 4_096),
        "mvtable,panda/box/17,morton,1234,0,memory,1,4096"
    );
    assert_eq!(sweep_row("ur5", "0.05", "9.5", true), "ur5,0.05,9.5,1");
    assert_eq!(sweep_row("ur5", "0.05", "9.5", false), "ur5,0.05,9.5,0");
}

#[test]
fn spheres_as_json() {
    let sphere = |x: &str| SphereText {
        x: x.to_owned(),
        y: "2".to_owned(),
        z: "-3".to_owned(),
        r: "0.1".to_owned(),
    };
    assert_eq!(
        sphere_lines(&vec![sphere("1"), sphere("5")]),
        vec![
            "[",
            "  {\"x\": 1, \"y\": 2, \"z\": -3, \"r\": 0.1},",
            "  {\"x\": 5, \"y\": 2, \"z\": -3, \"r\": 0.1}",
            "]",
        ]
    );
    assert_eq!(sphere_lines(&vec![]), vec!["[", "]"]);
}
