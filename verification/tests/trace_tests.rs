use perf_focus::trace::{each_trace, split_words, symbol_of, TraceReader};

fn lines(data: &str) -> Vec<String> {
    data.lines().map(|line| line.to_string()).collect()
}

fn test(data: &str, expected_frame_counts: &[usize]) {
    let mut frame_counts = vec![];
    for frames in each_trace(lines(data)) {
        frame_counts.push(frames.stack.len());
    }
    assert_eq!(expected_frame_counts, &frame_counts[..]);
}

#[test]
fn test_run_1() {
    let data = r"
# ========
# captured on: Thu Jun  4 05:50:02 2015
# hostname : lunch-box
# os release : 3.13.0-52-generic
# perf version : 3.13.11-ckt18
# arch : x86_64
# nrcpus online : 16
# nrcpus avail : 16
# cpudesc : Intel(R) Xeon(R) CPU E5-2680 0 @ 2.70GHz
# cpuid : GenuineIntel,6,45,7
# total memory : 16355712 kB
# cmdline : /usr/lib/linux-tools-3.13.0-52/perf record -F 99 -g ./mach build -v -p script 
# event : name = cycles, type = 0, config = 0x0, config1 = 0x0, config2 = 0x0, excl_usr = 0, excl_kern = 0, excl_host = 0, excl_guest = 1, precise_ip = 0, attr_mmap2 = 0, attr_mmap  = 1, attr_mmap_data = 0
# HEADER_CPU_TOPOLOGY info available, use -I to display
# HEADER_NUMA_TOPOLOGY info available, use -I to display
# pmu mappings: cpu = 4, software = 1, uncore_pcu = 15, tracepoint = 2, uncore_imc_0 = 17, uncore_imc_1 = 18, uncore_imc_2 = 19, uncore_imc_3 = 20, uncore_qpi_0 = 21, uncore_qpi_1 = 22, uncore_cbox_0 = 7, uncore_cbox_1 = 8, uncore_cbox_2 = 9, uncore_cbox_3 = 10, uncore_cbox_4 = 11, uncore_cbox_5 = 12, uncore_cbox_6 = 13, uncore_cbox_7 = 14, uncore_ha = 16, uncore_r2pcie = 23, uncore_r3qpi_0 = 24, uncore_r3qpi_1 = 25, breakpoint = 5, uncore_ubox = 6
# ========
#
:18830 18830 2552105.017823: cycles: 
	ffffffff8104f45a [unknown] ([kernel.kallsyms])
	ffffffff8102f9ac [unknown] ([kernel.kallsyms])
	ffffffff81029c04 [unknown] ([kernel.kallsyms])
	ffffffff81142de7 [unknown] ([kernel.kallsyms])
	ffffffff81143f70 [unknown] ([kernel.kallsyms])
	ffffffff81146360 [unknown] ([kernel.kallsyms])
	ffffffff811c527f [unknown] ([kernel.kallsyms])
	ffffffff811c5c91 [unknown] ([kernel.kallsyms])
	ffffffff812156b8 [unknown] ([kernel.kallsyms])
	ffffffff811c43cf [unknown] ([kernel.kallsyms])
	ffffffff812139c5 [unknown] ([kernel.kallsyms])
	ffffffff811c43cf [unknown] ([kernel.kallsyms])
	ffffffff811c5947 [unknown] ([kernel.kallsyms])
	ffffffff811c5e16 [unknown] ([kernel.kallsyms])
	ffffffff817336a9 [unknown] ([kernel.kallsyms])
	    7f10408df337 [unknown] ([unknown])

:18830 18830 2552105.017830: cycles: 
	ffffffff8104f45a [unknown] ([kernel.kallsyms])
	ffffffff8102f9ac [unknown] ([kernel.kallsyms])
	ffffffff81029c04 [unknown] ([kernel.kallsyms])
	ffffffff81142de7 [unknown] ([kernel.kallsyms])
	ffffffff81143f70 [unknown] ([kernel.kallsyms])
	ffffffff81146360 [unknown] ([kernel.kallsyms])
	ffffffff811c527f [unknown] ([kernel.kallsyms])
	ffffffff811c5c91 [unknown] ([kernel.kallsyms])
	ffffffff812156b8 [unknown] ([kernel.kallsyms])
	ffffffff811c43cf [unknown] ([kernel.kallsyms])
	ffffffff812139c5 [unknown] ([kernel.kallsyms])
	ffffffff811c43cf [unknown] ([kernel.kallsyms])
	ffffffff811c5947 [unknown] ([kernel.kallsyms])
	ffffffff811c5e16 [unknown] ([kernel.kallsyms])
	ffffffff817336a9 [unknown] ([kernel.kallsyms])
	    7f10408df337 [unknown] ([unknown])";

    test(data, &[16, 16]);
}

#[test]
fn sample_lists_its_stack_from_the_bottom() {
    let data = "rustc 18883 2323302.039150: cycles:\n    7f82e6dee178 je_arena_salloc (/some/path.so)\n    7f82e6dee179 alloc::heap (/other.so)\n    7f82e6dee17a main (/bin/rustc)\n";
    let samples = each_trace(lines(data));
    assert_eq!(samples.len(), 1);
    assert_eq!(samples[0].process_name, "rustc");
    assert_eq!(samples[0].stack, vec!["main", "alloc::heap", "je_arena_salloc"]);
    assert_eq!(samples[0].header.len(), 4);
    assert_eq!(samples[0].header[0], "rustc 18883 2323302.039150: cycles:");
    assert_eq!(samples[0].header[1], "    7f82e6dee178 je_arena_salloc (/some/path.so)");
}

#[test]
fn header_or_blank_line_ends_a_sample() {
    let data = "first 1\n a f (m)\nsecond 2\n b g (m)\n c h (m)\n\n\n# note\nthird 3\n";
    let samples = each_trace(lines(data));
    assert_eq!(samples.len(), 2);
    assert_eq!(samples[0].process_name, "first");
    assert_eq!(samples[0].stack, vec!["f"]);
    assert_eq!(samples[1].process_name, "second");
    assert_eq!(samples[1].stack, vec!["h", "g"]);
}

#[test]
fn sample_without_frames_is_dropped() {
    let samples = each_trace(lines("lonely 1\n\nfull 2\n a f (m)\nlast 3\n"));
    assert_eq!(samples.len(), 1);
    assert_eq!(samples[0].process_name, "full");
    assert!(each_trace(lines("only 1\n")).is_empty());
}

#[test]
fn comments_do_not_end_a_sample() {
    let data = "p 1\n a f (m)\n# in between\n b g (m)\n";
    let samples = each_trace(lines(data));
    assert_eq!(samples.len(), 1);
    assert_eq!(samples[0].stack, vec!["g", "f"]);
    assert_eq!(samples[0].header.len(), 3);
}

#[test]
fn profile_without_samples_gives_none() {
    assert!(each_trace(lines("")).is_empty());
    assert!(each_trace(lines("# only\n\n   \n# comments\n")).is_empty());
}

#[test]
fn indented_line_without_header_is_dropped() {
    assert!(each_trace(lines("  a f (m)\n  b g (m)\n")).is_empty());
    let samples = each_trace(lines("  a f (m)\n\n  b g (m)\nproc 1\n  c h (m)\n\n  d i (m)\n"));
    assert_eq!(samples.len(), 1);
    assert_eq!(samples[0].process_name, "proc");
    assert_eq!(samples[0].stack, vec!["h"]);
    let mut reader = TraceReader::new();
    assert!(reader.push_line("  a f (m)".to_string()).is_none());
    assert!(reader.finish().is_none());
}

#[test]
fn symbol_is_what_stands_between_address_and_module() {
    assert_eq!(symbol_of("\tffffffff8104f45a [unknown] ([kernel.kallsyms])"), "[unknown]");
    assert_eq!(symbol_of("  7f82 je_arena_salloc (/some/path.so)"), "je_arena_salloc");
    assert_eq!(symbol_of("  7f82 <T as core::fmt::Debug>::fmt (/bin/x)"), "<T as core::fmt::Debug>::fmt");
    assert_eq!(symbol_of("  7f82 a  b (/bin/x)"), "a  b");
    assert_eq!(symbol_of("  7f82 f"), "f");
    assert_eq!(symbol_of("  7f82"), "");
    assert_eq!(symbol_of("  7f82 (m) g"), "");
    assert_eq!(symbol_of(""), "");
    assert_eq!(symbol_of("7f82 f\u{a0}g (m)"), "f g");
}

#[test]
fn words_are_split_at_every_white_space() {
    assert_eq!(split_words("  a b  c "), vec!["a", "b", "", "c"]);
    assert_eq!(split_words("abc"), vec!["abc"]);
    assert_eq!(split_words(""), vec![""]);
    assert_eq!(split_words(" \t "), vec![""]);
    assert_eq!(split_words("a\tb\u{2003}c"), vec!["a", "b", "c"]);
}

#[test]
fn reader_hands_out_samples_as_they_end() {
    let mut reader = TraceReader::new();
    assert!(reader.push_line("# comment".to_string()).is_none());
    assert!(reader.push_line("proc 1 2: cycles:".to_string()).is_none());
    assert!(reader.push_line("\tabc f (m)".to_string()).is_none());
    assert!(reader.push_line("\tabd g h (m)".to_string()).is_none());
    let first = reader.push_line("other 2 3: cycles:".to_string()).unwrap();
    assert_eq!(first.process_name, "proc");
    assert_eq!(first.stack, vec!["g h", "f"]);
    assert_eq!(first.header.len(), 3);
    assert!(reader.push_line("".to_string()).is_none());
    assert!(reader.push_line("".to_string()).is_none());
    assert!(reader.finish().is_none());
    assert!(reader.push_line("last 1".to_string()).is_none());
    assert!(reader.push_line("  7f00 main (/bin/last)".to_string()).is_none());
    let last = reader.finish().unwrap();
    assert_eq!(last.process_name, "last");
    assert_eq!(last.stack, vec!["main"]);
    assert!(reader.finish().is_none());
}
