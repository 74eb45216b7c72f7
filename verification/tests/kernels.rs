use linux_disk_prune::names::{older_version, version_key};
use linux_disk_prune::path::FsPath;
use linux_disk_prune::rules::dpkg::{
    apt_sim_removals, installed_kernel_images, installed_packages, kernel_version_live, package_states, rc_kernel_packages,
};
use linux_disk_prune::rules::kernels::{
    kernel_base, kernel_findings, kernel_pkg_matches, kernel_plan, leftover_rm_command, KernelFacts, KernelNames, KernelRoots,
};
use linux_disk_prune::rules::{Action, CheckOutput, Finding, Risk};

const ROOT: &str = "/srv/k";

#[test]
fn versions() {
    assert!(version_key("6.8.0-138-generic") > version_key("6.8.0-100-generic"));
    assert!(version_key("6.10.0-1-generic") > version_key("6.8.0-138-generic"));
}

#[test]
fn version_tokens() {
    let m = |p: &str| kernel_pkg_matches(p, "6.8.0-100-generic", "6.8.0-100", false);
    assert!(m("linux-image-6.8.0-100-generic"));
    assert!(m("linux-headers-6.8.0-100"));
    assert!(m("linux-hwe-6.8-tools-6.8.0-100"));
    assert!(!m("linux-image-6.8.0-1001-generic"));
    assert!(!m("linux-image-16.8.0-100-generic"));
    assert!(!m("linux-headers-6.8.0-10"));
    assert!(!m("linux-image-6.8.0-100-lowlatency"));
    assert!(!m("linux-image-6.8.0-100-generic-64k"));
    assert!(!m("nvidia-6.8.0-100-generic"));
    // Base shared with a kept kernel: flavour-less packages are off limits.
    assert!(!kernel_pkg_matches("linux-headers-6.8.0-100", "6.8.0-100-generic", "6.8.0-100", true));
    assert_eq!(kernel_base("6.8.0-100-generic"), "6.8.0-100");
    assert_eq!(kernel_base("6.8.0-100-generic-64k"), "6.8.0-100");
    assert_eq!(kernel_base("5.15.0-1034-azure"), "5.15.0-1034");
    assert_eq!(kernel_base("6.9.0"), "6.9.0");
}

fn shell_cmd(f: &Finding) -> &str {
    match &f.action {
        Action::Shell { command } => command,
        other => panic!("expected a shell action, got {other:?}"),
    }
}

/// The words of a command, as a shell reads them.
fn words(cmd: &str) -> Vec<String> {
    let (mut out, mut cur, mut any, mut quoted, mut escaped) = (Vec::new(), String::new(), false, false, false);
    for c in cmd.chars() {
        if quoted {
            if c == '\'' {
                quoted = false;
            } else {
                cur.push(c);
            }
        } else if escaped {
            cur.push(c);
            escaped = false;
        } else {
            match c {
                '\'' => (quoted, any) = (true, true),
                '\\' => (escaped, any) = (true, true),
                ' ' => {
                    if any {
                        out.push(std::mem::take(&mut cur));
                    }
                    any = false;
                }
                c => {
                    cur.push(c);
                    any = true;
                }
            }
        }
    }
    if any {
        out.push(cur);
    }
    out
}

fn kernel_pkgs(ver: &str) -> Vec<String> {
    let mut v: Vec<String> = ["image", "modules", "modules-extra", "headers"].iter().map(|k| format!("linux-{k}-{ver}")).collect();
    v.push(format!("linux-headers-{}", kernel_base(ver)));
    v
}

fn dpkg(vers: &[&str]) -> String {
    let mut pkgs: Vec<String> = vers.iter().flat_map(|v| kernel_pkgs(v)).collect();
    pkgs.sort();
    pkgs.dedup();
    pkgs.push("linux-generic".into());
    pkgs.iter().map(|p| format!("Package: {p}\nStatus: install ok installed\nArchitecture: amd64\n")).collect::<Vec<_>>().join("\n")
}

/// Fake /boot, /lib/modules, /usr/src, /usr/lib: files with their bytes.
struct Disk {
    files: Vec<(String, u64)>,
}

impl Disk {
    fn file(&mut self, rel: impl Into<String>, len: u64) {
        self.files.push((rel.into(), len.div_ceil(4096) * 4096));
    }

    /// Allocated bytes of a folder and everything in it.
    fn du(&self, rel: &str) -> Option<u64> {
        let prefix = format!("{rel}/");
        let inside: Vec<&(String, u64)> = self.files.iter().filter(|(n, _)| n.starts_with(&prefix)).collect();
        if inside.is_empty() {
            return None;
        }
        let mut dirs: Vec<&str> = Vec::new();
        for (n, _) in &inside {
            for (i, c) in n.char_indices() {
                if c == '/' && i >= rel.len() && !dirs.contains(&&n[..i]) {
                    dirs.push(&n[..i]);
                }
            }
        }
        Some(inside.iter().map(|f| f.1).sum::<u64>() + dirs.len() as u64 * 4096)
    }

    fn bytes(&self, p: &FsPath) -> u64 {
        let rel = p.display();
        let rel = rel.strip_prefix(&format!("{ROOT}/")).unwrap();
        match self.files.iter().find(|(n, _)| n == rel) {
            Some(f) => f.1,
            None => self.du(rel).unwrap(),
        }
    }

    fn size(&self, p: &FsPath, dir: bool) -> Option<u64> {
        let rel = p.display();
        let rel = rel.strip_prefix(&format!("{ROOT}/")).unwrap();
        if dir {
            self.du(rel)
        } else {
            self.files.iter().find(|(n, _)| n == rel).map(|f| f.1)
        }
    }

    fn names(&self, dir: &str, files: bool) -> Vec<String> {
        let prefix = format!("{dir}/");
        let mut out: Vec<String> = Vec::new();
        for (n, _) in &self.files {
            let Some(rest) = n.strip_prefix(&prefix) else { continue };
            let is_file = !rest.contains('/');
            let name = rest.split('/').next().unwrap().to_string();
            if is_file == files && !out.contains(&name) {
                out.push(name);
            }
        }
        out
    }
}

/// Full kernels and module-only leftovers. Symlinks such as /boot/vmlinuz are
/// no regular files, so a listing of /boot does not hold them.
fn kernel_tree(installed: &[&str], leftovers: &[&str]) -> Disk {
    let mut d = Disk { files: Vec::new() };
    for v in installed {
        for f in ["vmlinuz", "initrd.img", "System.map", "config"] {
            d.file(format!("boot/{f}-{v}"), 3000);
        }
        d.file(format!("modules/{v}/kernel/fs.ko"), 5000);
        d.file(format!("src/linux-headers-{v}/Makefile"), 100);
        d.file(format!("src/linux-headers-{}/Makefile", kernel_base(v)), 100);
    }
    for v in leftovers {
        d.file(format!("modules/{v}/updates/dkms/nvidia.ko"), 7000);
    }
    d
}

/// Simulator answering like `apt-get -s purge`, removing exactly the request.
fn exact_sim(pkgs: &[String]) -> Option<String> {
    let mut s = String::from("NOTE: This is only a simulation!\nReading package lists...\n");
    for p in pkgs {
        s.push_str(&format!("Purg {p} [6.8.0-1.1~22.04.1]\n"));
    }
    Some(s)
}

fn at(rel: &str) -> FsPath {
    FsPath::new(ROOT).join_str(rel)
}

fn kernels_with(d: &Disk, running: &str, status: &str, sim: &dyn Fn(&[String]) -> Option<String>) -> CheckOutput {
    let roots = KernelRoots { boot: at("boot"), modules: at("modules"), usr_src: at("src"), usr_lib: at("lib") };
    let names = KernelNames {
        boot: d.names("boot", true),
        modules: d.names("modules", false),
        usr_src: d.names("src", false),
        usr_lib: d.names("lib", false),
    };
    let Some(plan) = kernel_plan(&roots, running, status, &names) else { return CheckOutput::default() };
    let facts = plan
        .old
        .iter()
        .map(|k| KernelFacts {
            files: k.files.iter().map(|x| d.size(x, false)).collect(),
            dirs: k.dirs.iter().map(|x| d.size(x, true)).collect(),
            simulated: if k.packages.is_empty() { None } else { sim(&k.packages) },
        })
        .collect();
    kernel_findings(&plan, &facts, &roots.modules, running, status)
}

fn kernels(d: &Disk, running: &str, status: &str) -> CheckOutput {
    kernels_with(d, running, status, &exact_sim)
}

fn proposed(out: &CheckOutput) -> Vec<String> {
    let mut v: Vec<String> = out.findings.iter().filter_map(|f| f.id.strip_prefix("kernel:").map(String::from)).collect();
    v.sort_by_key(|s| version_key(s));
    v
}

const PURGE: &str = "sudo apt-get -o DPkg::Lock::Timeout=120 purge -y ";

fn purged(f: &Finding) -> Vec<String> {
    let cmd = shell_cmd(f);
    let rest = cmd.strip_prefix(PURGE).expect(cmd);
    let mut v: Vec<String> = rest.split(' ').map(String::from).collect();
    v.sort();
    v
}

fn g(n: &str) -> String {
    format!("6.8.0-{n}-generic")
}

fn refs(v: &[String]) -> Vec<&str> {
    v.iter().map(|s| s.as_str()).collect()
}

fn holds(f: &Finding, rel: &str) -> bool {
    f.paths.iter().any(|x| x.same(&at(rel)))
}

#[test]
fn kernel_never_proposes_running_newest_or_fallback() {
    let vers = [g("100"), g("110"), g("120"), g("138")];
    let d = kernel_tree(&refs(&vers), &[]);
    let status = dpkg(&refs(&vers));
    for (running, want) in [
        (g("110"), vec![g("100")]),
        (g("138"), vec![g("100"), g("110")]),
        (g("100"), vec![g("110")]),
        (g("120"), vec![g("100"), g("110")]),
    ] {
        let out = kernels(&d, &running, &status);
        let got = proposed(&out);
        assert_eq!(got, want, "running {running}");
        assert!(!got.contains(&running) && !got.contains(&g("138")));
        for f in &out.findings {
            assert_eq!(f.risk, Risk::Moderate);
            assert!(f.needs_root);
            for p in purged(f) {
                assert!(!p.contains(&running) && !p.contains("-138") && !p.contains("-120"), "{p}");
            }
        }
    }
}

#[test]
fn kernel_version_ordering_is_numeric() {
    assert!(version_key("6.10.0-1-generic") > version_key("6.8.0-999-generic"));
    assert!(version_key("6.8.0-138-generic") > version_key("6.8.0-100-generic"));
    assert!(version_key("6.8.0-100-generic") > version_key("6.8.0-99-generic"));
    assert!(older_version("6.8.0-99-generic", "6.8.0-100-generic"));

    // As strings "6.8.0-99" > "6.8.0-138"; numerically 138 is newest.
    let vers = [g("9"), g("99"), g("100"), g("138")];
    let d = kernel_tree(&refs(&vers), &[]);
    assert_eq!(proposed(&kernels(&d, &g("138"), &dpkg(&refs(&vers)))), vec![g("9"), g("99")]);

    let vers = ["6.8.0-50-generic", "6.8.0-200-generic", "6.9.0-5-generic", "6.10.0-1-generic"];
    let d = kernel_tree(&vers, &[]);
    let out = kernels(&d, "6.10.0-1-generic", &dpkg(&vers));
    assert_eq!(proposed(&out), ["6.8.0-50-generic", "6.8.0-200-generic"]);
}

#[test]
fn kernel_packages_never_cross_versions() {
    let vers = [g("10"), g("100"), g("1001"), g("1002")];
    let d = kernel_tree(&refs(&vers), &[]);
    let out = kernels(&d, &g("1002"), &dpkg(&refs(&vers)));
    assert_eq!(proposed(&out), [g("10"), g("100")]);
    for f in &out.findings {
        let ver = f.id.strip_prefix("kernel:").unwrap();
        let mut want = kernel_pkgs(ver);
        want.sort();
        assert_eq!(purged(f), want, "{ver}");
        assert!(shell_cmd(f).starts_with(PURGE));
        // Files and dirs belong to this version only.
        for p in &f.paths {
            let name = String::from_utf8(p.file_name().unwrap()).unwrap();
            assert!(name.ends_with(ver) || name.ends_with(&kernel_base(ver)), "{p:?}");
        }
        let expect: u64 = f.paths.iter().map(|p| d.bytes(p)).sum();
        assert_eq!(f.bytes, expect);
    }
}

#[test]
fn kernel_flavours_sharing_a_base_are_not_purged_together() {
    let vers = [g("100"), "6.8.0-100-lowlatency".to_string(), g("110"), g("120")];
    let d = kernel_tree(&refs(&vers), &[]);
    let out = kernels(&d, "6.8.0-100-lowlatency", &dpkg(&refs(&vers)));
    assert_eq!(proposed(&out), [g("100")]);
    let pk = purged(&out.findings[0]);
    assert_eq!(
        pk,
        [
            "linux-headers-6.8.0-100-generic",
            "linux-image-6.8.0-100-generic",
            "linux-modules-6.8.0-100-generic",
            "linux-modules-extra-6.8.0-100-generic",
        ]
    );
    assert!(!holds(&out.findings[0], "src/linux-headers-6.8.0-100"));
}

#[test]
fn kernel_hwe_headers_and_tools_sized_and_purged() {
    let vers = [g("100"), g("110"), g("120")];
    let mut d = kernel_tree(&refs(&vers), &[]);
    let extra_dirs = [
        "src/linux-hwe-6.8-headers-6.8.0-100",
        "lib/linux-hwe-6.8-tools-6.8.0-100",
        "lib/linux-tools-6.8.0-100-generic",
        "src/linux-hwe-6.8-headers-6.8.0-110", // other version: untouched
    ];
    for x in extra_dirs {
        d.file(format!("{x}/payload"), 50_000);
    }
    let mut status = dpkg(&refs(&vers));
    for p in [
        "linux-hwe-6.8-headers-6.8.0-100",
        "linux-hwe-6.8-tools-6.8.0-100",
        "linux-tools-6.8.0-100-generic",
        "linux-tools-6.8.0-100",
        "linux-hwe-6.8-headers-6.8.0-110",
        "linux-tools-common",
    ] {
        status.push_str(&format!("\nPackage: {p}\nStatus: install ok installed\n"));
    }
    let out = kernels(&d, &g("120"), &status);
    assert_eq!(proposed(&out), [g("100")]);
    let f = &out.findings[0];
    for x in &extra_dirs[..3] {
        assert!(holds(f, x), "{x} missing from {:?}", f.paths);
    }
    assert!(!holds(f, extra_dirs[3]));
    assert_eq!(f.bytes, f.paths.iter().map(|p| d.bytes(p)).sum::<u64>());
    let pk = purged(f);
    for p in ["linux-hwe-6.8-headers-6.8.0-100", "linux-hwe-6.8-tools-6.8.0-100", "linux-tools-6.8.0-100-generic", "linux-tools-6.8.0-100"] {
        assert!(pk.contains(&p.to_string()), "{p}");
    }
    assert!(!pk.iter().any(|p| p.contains("6.8.0-110") || p == "linux-tools-common"));
    assert!(!f.detail.contains("autoremove"), "autoremove is not equivalent");
}

fn leftovers(out: &CheckOutput) -> &Finding {
    out.findings.iter().find(|f| f.id == "kernel-leftovers").unwrap()
}

fn shown(f: &Finding) -> Vec<String> {
    f.paths.iter().map(|x| x.display()).collect()
}

#[test]
fn kernel_leftover_modules_do_not_count_as_newest() {
    let vers = [g("100"), g("110"), g("120")];
    // A newer, package-less leftover must not push 6.8.0-110 out of the kept set.
    let d = kernel_tree(&refs(&vers), &[&g("200"), &g("050")]);
    let out = kernels(&d, &g("120"), &dpkg(&refs(&vers)));
    assert_eq!(proposed(&out), [g("100")]);
    // Only the older leftover: one newer than every installed image may be
    // a kernel that is being (or was hand-) installed.
    assert_eq!(shown(leftovers(&out)), [format!("{ROOT}/modules/{}", g("050"))]);
}

#[test]
fn kernel_being_installed_is_never_a_leftover() {
    // An unattended upgrade has unpacked 6.8.0-130's modules but not yet
    // its image: /lib/modules/6.8.0-130 exists with no /boot files.
    let vers = [g("100"), g("110"), g("120")];
    let d = kernel_tree(&refs(&vers), &[&g("115"), &g("090")]);
    let mut status = dpkg(&refs(&vers));
    status.push_str(&format!("\nPackage: linux-modules-{}\nStatus: install ok unpacked\nArchitecture: amd64\n", g("115")));
    let out = kernels(&d, &g("120"), &status);
    let left = leftovers(&out);
    assert_eq!(shown(left), [format!("{ROOT}/modules/{}", g("090"))]);
    // The command re-checks at run time before deleting.
    assert!(shell_cmd(left).contains("dpkg-query -W") && shell_cmd(left).contains("--one-file-system"));
    assert!(kernel_version_live(&package_states(&status), &g("115")) && !kernel_version_live(&package_states(&status), &g("090")));
}

#[test]
fn debug_symbol_packages_are_not_kernels() {
    let pk: Vec<String> = ["linux-image-6.8.0-120-generic", "linux-image-unsigned-6.8.0-130-generic-dbgsym", "linux-image-unsigned-6.8.0-120-generic"]
        .iter()
        .map(|s| s.to_string())
        .collect();
    assert_eq!(installed_kernel_images(&pk), [g("120")]);
}

#[test]
fn kernel_purge_is_manual_when_apt_would_remove_a_metapackage() {
    let vers = [g("100"), g("110"), g("120")];
    let d = kernel_tree(&refs(&vers), &[]);
    let greedy = |pkgs: &[String]| {
        let mut s = exact_sim(pkgs).unwrap();
        s.push_str("Remv linux-image-generic-hwe-22.04 [6.8.0.100.100~22.04.1]\n");
        s.push_str("Purg linux-generic-hwe-22.04:amd64 [6.8.0.100.100~22.04.1]\n");
        Some(s)
    };
    let out = kernels_with(&d, &g("120"), &dpkg(&refs(&vers)), &greedy);
    let f = &out.findings[0];
    assert!(matches!(f.action, Action::Manual));
    assert!(f.detail.contains("linux-generic-hwe-22.04") && f.detail.contains("linux-image-generic-hwe-22.04"));
    // No simulation possible -> never an unchecked purge either.
    let out = kernels_with(&d, &g("120"), &dpkg(&refs(&vers)), &|_: &[String]| None);
    assert!(matches!(out.findings[0].action, Action::Manual));
}

#[test]
fn apt_simulation_parser() {
    let sim = "NOTE: This is only a simulation!\n      apt-get needs root privileges for real execution.\n\
               Reading package lists...\nThe following packages will be REMOVED:\n  linux-image-6.8.0-100-generic*\n\
               0 upgraded, 0 newly installed, 2 to remove and 0 not upgraded.\n\
               Purg linux-image-6.8.0-100-generic [6.8.0-100.100~22.04.1]\n\
               Remv linux-generic:amd64 [6.8.0.100.100]\n\
               Inst something-else [1.0]\nConf something-else (1.0 Ubuntu:22.04/jammy [amd64])\n";
    assert_eq!(apt_sim_removals(sim), ["linux-image-6.8.0-100-generic", "linux-generic", "something-else (install)"]);
    assert!(apt_sim_removals("").is_empty());
}

#[test]
fn kernel_leftover_module_dirs_grouped_into_one_finding() {
    let vers = [g("100"), g("110"), g("120")];
    let d = kernel_tree(&refs(&vers), &[&g("40"), &g("45")]);
    let out = kernels(&d, &g("120"), &dpkg(&refs(&vers)));
    assert_eq!(proposed(&out), [g("100")]);
    let left: Vec<&Finding> = out.findings.iter().filter(|f| f.id == "kernel-leftovers").collect();
    assert_eq!(left.len(), 1);
    let f = left[0];
    let want = [format!("{ROOT}/modules/{}", g("40")), format!("{ROOT}/modules/{}", g("45"))];
    assert_eq!(shown(f), want);
    assert_eq!(f.bytes, f.paths.iter().map(|p| d.bytes(p)).sum::<u64>());
    // The command removes exactly those two directories.
    let one = |n: &str| leftover_rm_command(&g(n), &at(&format!("modules/{}", g(n))));
    assert!(shell_cmd(f).contains(&one("40")) && shell_cmd(f).contains(&one("45")));
    assert_eq!(shell_cmd(f).matches("rm -rf").count(), 2);
    assert_eq!(words(&one("40"))[4..], ["_".to_string(), g("40"), want[0].clone()]);
}

#[test]
fn kernel_nothing_without_dpkg_database() {
    let vers = [g("100"), g("110"), g("120")];
    // Only /lib/modules visible (e.g. /boot not mounted) and dpkg unreadable.
    let d = kernel_tree(&[], &refs(&vers));
    assert!(kernels(&d, &g("120"), "").findings.is_empty());
    let d = kernel_tree(&refs(&vers), &[]);
    assert!(kernels(&d, &g("120"), "").findings.is_empty());
}

#[test]
fn kernel_without_package_is_manual() {
    let vers = [g("100"), g("110"), g("120")];
    let d = kernel_tree(&refs(&vers), &[]);
    let out = kernels(&d, &g("120"), &dpkg(&[&g("110"), &g("120")]));
    assert_eq!(proposed(&out), [g("100")]);
    assert!(matches!(out.findings[0].action, Action::Manual));
    assert!(!out.findings[0].is_actionable());
}

#[test]
fn kernel_nothing_proposed_with_one_or_two_kernels() {
    let (a, b) = (g("100"), g("138"));
    for (vers, running) in [
        (vec![a.clone()], a.clone()),
        (vec![a.clone()], "9.9.9-1-generic".to_string()),
        (vec![a.clone(), b.clone()], a.clone()),
        (vec![a.clone(), b.clone()], b.clone()),
        (vec![a.clone(), b.clone()], "5.15.0-1-generic".to_string()),
    ] {
        let d = kernel_tree(&refs(&vers), &[]);
        let out = kernels(&d, &running, &dpkg(&refs(&vers)));
        assert!(out.findings.is_empty(), "{vers:?} running {running}");
    }
    // Unknown running kernel: never guess.
    let vers = [g("1"), g("2"), g("3"), g("4")];
    let d = kernel_tree(&refs(&vers), &[]);
    assert!(kernels(&d, "", &dpkg(&refs(&vers))).findings.is_empty());
}

#[test]
fn kernel_non_utf8_module_dir_is_ignored() {
    // Names that are no valid UTF-8 never enter the listing.
    let vers = [g("100"), g("110"), g("120")];
    let d = kernel_tree(&refs(&vers), &[]);
    let out = kernels(&d, &g("120"), &dpkg(&refs(&vers)));
    assert!(!out.findings.iter().any(|f| f.id == "kernel-leftovers"));
    assert!(out.findings.iter().flat_map(|f| &f.paths).all(|p| p.to_str().is_some()));
}

#[test]
fn dpkg_status_only_counts_installed_packages() {
    let status = "Package: a\nStatus: install ok installed\n\n\
                  Package: b\nStatus: deinstall ok config-files\n\n\
                  Package: c\nStatus: purge ok not-installed\n\n\
                  Package: d\nStatus: install ok half-installed\n\n\
                  Status: install ok installed\nPackage: e\n";
    assert_eq!(installed_packages(status), ["a", "e"]);
    assert!(installed_packages("").is_empty());
    let imgs = installed_kernel_images(&vec![
        "linux-image-6.8.0-100-generic".into(),
        "linux-image-unsigned-6.8.0-90-generic".into(),
        "linux-image-generic-hwe-22.04".into(),
        "linux-image-generic".into(),
        "linux-modules-6.8.0-80-generic".into(),
    ]);
    assert_eq!(imgs, ["6.8.0-100-generic", "6.8.0-90-generic"]);
}

#[test]
fn leftover_kernels_purge_their_rc_dpkg_records_first() {
    let status = "Package: linux-modules-6.8.0-52-generic\nStatus: deinstall ok config-files\n\n\
                  Package: linux-image-6.8.0-52-generic\nStatus: deinstall ok config-files\n\n\
                  Package: linux-modules-6.8.0-520-generic\nStatus: deinstall ok config-files\n\n\
                  Package: linux-modules-6.8.0-138-generic\nStatus: install ok installed\n\n\
                  Package: libfoo-6.8.0-52-generic\nStatus: deinstall ok config-files\n";
    let versions = vec!["6.8.0-52-generic".to_string()];
    // Exact version suffix only; installed and non-kernel packages excluded.
    assert_eq!(
        rc_kernel_packages(status, &versions),
        vec!["linux-image-6.8.0-52-generic".to_string(), "linux-modules-6.8.0-52-generic".to_string()]
    );
    assert!(rc_kernel_packages(status, &vec![]).is_empty());
}

#[test]
fn stray_module_directories_never_take_packages_of_kept_kernels() {
    let vers = [g("138")];
    // None of these is a kernel of its own, and each is the end of a package
    // name of the running one.
    for stray in ["generic", "138-generic", "6.8.0-138", "138"] {
        let d = kernel_tree(&refs(&vers), &[stray]);
        let out = kernels(&d, &g("138"), &dpkg(&refs(&vers)));
        for f in &out.findings {
            assert!(!f.is_actionable(), "{stray}: {}", f.command_text());
        }
        if stray != "6.8.0-138" {
            assert!(proposed(&out).is_empty(), "{stray}");
        }
    }
    // A stray directory does not even hide an old kernel.
    let vers = [g("100"), g("110"), g("138")];
    let d = kernel_tree(&refs(&vers), &["generic"]);
    let out = kernels(&d, &g("138"), &dpkg(&refs(&vers)));
    assert_eq!(proposed(&out), [g("100")]);
    assert!(purged(&out.findings[0]).iter().all(|p| p.contains("-100")));
}

#[test]
fn hand_installed_boot_image_is_a_manual_step_whatever_its_name() {
    let vers = [g("120"), g("138")];
    let mut d = kernel_tree(&refs(&vers), &["custom-modules"]);
    d.file("boot/vmlinuz-custom".to_string(), 3000);
    d.file("boot/initrd.img-custom".to_string(), 2000);
    let out = kernels(&d, &g("138"), &dpkg(&refs(&vers)));
    assert_eq!(proposed(&out), ["custom"]);
    let f = &out.findings[0];
    assert!(matches!(f.action, Action::Manual));
    assert_eq!(f.title, "Inactive kernel custom");
    assert_eq!(f.bytes, 2 * 4096);
    assert!(holds(f, "boot/vmlinuz-custom") && holds(f, "boot/initrd.img-custom") && f.paths.len() == 2);
    assert!(f.detail.contains("no matching dpkg package"), "{}", f.detail);
}

#[test]
fn no_installed_image_or_unknown_running_kernel_finds_nothing() {
    let vers = [g("100"), g("110"), g("120")];
    let d = kernel_tree(&refs(&vers), &[&g("50")]);
    assert!(kernels(&d, "", &dpkg(&refs(&vers))).findings.is_empty());
    assert!(kernels(&d, &g("120"), "").findings.is_empty());
}

#[test]
fn records_of_a_kept_kernel_stay() {
    let vers = [g("110"), g("120")];
    // The running kernel was removed without --purge: its record ends like the
    // name of the leftover directory.
    let d = kernel_tree(&refs(&vers), &["5-generic"]);
    let mut status = dpkg(&refs(&vers));
    for p in ["linux-image-6.8.0-5-generic", "linux-modules-6.7.0-5-generic"] {
        status.push_str(&format!("\nPackage: {p}\nStatus: deinstall ok config-files\nArchitecture: amd64\n"));
    }
    let out = kernels(&d, &g("5"), &status);
    let cmd = shell_cmd(leftovers(&out)).to_string();
    assert!(cmd.starts_with("sudo dpkg --purge linux-modules-6.7.0-5-generic; "), "{cmd}");
    assert!(!cmd.contains("linux-image-6.8.0-5-generic"));
}

#[test]
fn leftover_bytes_count_each_directory_once() {
    let vers = [g("110"), g("120")];
    let roots = KernelRoots { boot: at("boot"), modules: at("modules"), usr_src: at("modules/src"), usr_lib: at("lib") };
    let names = KernelNames { boot: vec![], modules: vec![g("50")], usr_src: vec![], usr_lib: vec![] };
    let status = dpkg(&refs(&vers));
    let plan = kernel_plan(&roots, &g("120"), &status, &names).unwrap();
    let facts: Vec<KernelFacts> = plan
        .old
        .iter()
        .map(|k| KernelFacts {
            files: k.files.iter().map(|_| None).collect(),
            dirs: k.dirs.iter().map(|p| if p.starts_with(&roots.modules) { Some(1 << 20) } else { None }).collect(),
            simulated: None,
        })
        .collect();
    let found: u64 = facts.iter().flat_map(|f| f.dirs.iter().flatten()).sum();
    let out = kernel_findings(&plan, &facts, &roots.modules, &g("120"), &status);
    assert!(leftovers(&out).paths.len() > 1);
    assert_eq!(leftovers(&out).bytes, found);
}
