use linux_disk_prune::json::{read_json, Json};
use linux_disk_prune::path::FsPath;
use linux_disk_prune::rules::docker::{
    dechunk, docker_body, docker_candidates, docker_findings, docker_fits, docker_reclaimable, docker_reply, docker_request, docker_socket,
};

#[test]
fn chunked() {
    assert_eq!(dechunk(&b"4\r\nWiki\r\n5\r\npedia\r\n0\r\n\r\n".to_vec()), b"Wikipedia");
}

fn json(s: &str) -> Json {
    read_json(&s.as_bytes().to_vec()).unwrap()
}

const DF: &str = r#"{
  "Images": [
    {"RepoTags": ["<none>:<none>"], "Containers": 0, "Size": 500, "SharedSize": 200},
    {"RepoTags": [], "Containers": 0, "Size": 100, "SharedSize": -1},
    {"RepoTags": null, "Containers": 0, "Size": 50, "SharedSize": 0},
    {"RepoTags": ["<none>:<none>"], "Containers": 2, "Size": 9000, "SharedSize": 0},
    {"RepoTags": ["app:latest"], "Containers": 0, "Size": 7000, "SharedSize": 0}
  ],
  "BuildCache": [
    {"InUse": false, "Shared": false, "Size": 1000},
    {"InUse": false, "Shared": true,  "Size": 20000},
    {"InUse": true,  "Shared": false, "Size": 30000},
    {"InUse": true,  "Shared": true,  "Size": 40000},
    {"Size": 50000},
    {"InUse": false, "Shared": false, "Size": 3}
  ]
}"#;

#[test]
fn docker_counts_only_what_prune_removes() {
    let df = json(DF);
    assert!(docker_fits(&df));
    assert_eq!(docker_reclaimable(&df), (300 + 100 + 50, 3, 1003));
    assert_eq!(docker_reclaimable(&json("{}")), (0, 0, 0));
}

#[test]
fn docker_sums_that_overflow_are_noticed() {
    let max = i64::MAX;
    let image = format!(r#"{{"RepoTags": [], "Containers": 0, "Size": {max}, "SharedSize": 0}}"#);
    let df = json(&format!(r#"{{"Images": [{image}, {image}, {image}]}}"#));
    assert!(!docker_fits(&df));
}

#[test]
fn docker_findings_for_images_and_build_cache() {
    let sock = FsPath::new("/var/run/docker.sock");
    let out = docker_findings(&sock, &Ok(json(DF)));
    let mut ids: Vec<&str> = out.findings.iter().map(|f| f.id.as_str()).collect();
    ids.sort();
    assert_eq!(ids.len(), 2);
    assert_eq!(out.findings.iter().map(|f| f.bytes).sum::<u64>(), 450 + 1003);
    assert!(out.findings.iter().all(|f| f.command_text().contains("prune -f")));
    // A daemon that cannot be asked leaves a note.
    let out = docker_findings(&sock, &Err("permission denied".into()));
    assert!(out.findings.is_empty() && out.notes.len() == 1 && out.notes[0].contains("permission denied"));
}

#[test]
fn docker_replies_are_unwrapped() {
    assert!(docker_request("/system/df").starts_with("GET /system/df HTTP/1.0\r\n"));
    let plain = b"HTTP/1.1 200 OK\r\nContent-Length: 2\r\n\r\n{}".to_vec();
    assert_eq!(docker_body(&plain), Ok(b"{}".to_vec()));
    let chunked = b"HTTP/1.1 200 OK\r\nTransfer-Encoding: chunked\r\n\r\n2\r\n{}\r\n0\r\n\r\n".to_vec();
    assert_eq!(docker_body(&chunked), Ok(b"{}".to_vec()));
    assert!(matches!(docker_reply(&chunked), Ok(Json::Object(m)) if m.is_empty()));
    assert!(docker_body(&b"HTTP/1.1 403 Forbidden\r\n\r\nno".to_vec()).is_err());
    assert!(docker_body(&b"no header".to_vec()).is_err());
    assert!(docker_reply(&b"HTTP/1.1 200 OK\r\n\r\nnot json".to_vec()).is_err());
}

#[test]
fn docker_socket_comes_from_the_environment_or_the_usual_places() {
    let c = docker_candidates(Some("/run/user/1000"));
    assert!(c.iter().any(|x| x.is("/run/user/1000/docker.sock")) && c.iter().any(|x| x.is("/var/run/docker.sock")));
    let none = vec![false; c.len()];
    let all = vec![true; c.len()];
    assert!(docker_socket(None, &c, &none).is_none());
    assert!(docker_socket(None, &c, &all).unwrap().same(&c[0]));
    assert!(docker_socket(Some("unix:///x/d.sock"), &c, &none).unwrap().is("/x/d.sock"));
    assert!(docker_socket(Some("tcp://host:1"), &c, &all).is_none());
}

#[test]
fn json_values_are_read() {
    assert!(matches!(json("null"), Json::Null));
    assert!(matches!(json("true"), Json::Bool(true)));
    assert!(matches!(json("-5"), Json::Number(Some(-5))));
    assert!(matches!(json("1.5"), Json::Number(None)));
    assert!(matches!(json("18446744073709551615"), Json::Number(None)));
    assert!(matches!(json("\"a\\u00fc\""), Json::Text(s) if s == "aü"));
    assert!(matches!(json("[1, [2]]"), Json::List(v) if v.len() == 2));
    match json(r#"{"b": 1, "a": 2}"#) {
        Json::Object(m) => {
            let mut keys: Vec<String> = m.into_iter().map(|x| x.0).collect();
            keys.sort();
            assert_eq!(keys, ["a", "b"]);
        }
        _ => panic!("not an object"),
    }
    assert!(read_json(&b"{".to_vec()).is_err());
}
