# klog_lsp

A language server for the [klog](https://klog.jotaen.net) time-tracking
format, with a Zed extension that launches it. The server shells out to the
`klog` CLI and turns its output into hover reports, code lenses, inlay hints
and completions.

The reports, summaries, completions and hover decisions, the `klog`
argument lists, the framing of messages and the routing of methods are
computed by the library in `src/`, which is verified with Verus:

| Module | What it holds |
| :--- | :--- |
| `text`, `number`, `decimal` | characters, lines and tokens; integers as `i32::from_str` reads them; exact decimal arithmetic on digit strings |
| `duration` | klog durations (`1h30m`, `-30m`, `8h!`): reading, writing, conversion to days |
| `calendar` | month lengths, Sakamoto's weekday formula, working days |
| `document` | date headers, the latest record date, tags under the cursor |
| `report` | the day report, the one-line day summary and the tag report |
| `project` | the `#project` breakdown with end-of-month estimates |
| `settings` | the `day_duration` setting, found anywhere in the client's settings |
| `completion` | snippet completions |
| `protocol`, `framing` | `Content-Length` headers, messages on the byte stream, and `klog` results |
| `server` | open documents, hover targets, date headers for lenses, the launch command |

Each public function states its result exactly over spec functions; the
proof functions named `law_*` state properties that span several calls.
Functions that would leave `i32` on some inputs ask for a precondition, and
each such precondition has an executable check (`total_output_ok`,
`tag_outputs_ok`, `project_inputs_check`, `month_in_range`,
`setting_in_range`, ...).

`app/` is the unverified rest: the JSON-RPC loop on stdin/stdout, the runs of
`klog` and `date`, the JSON shapes of requests and responses (serde types),
and the Zed extension.

The tests under `tests/` exercise the compiled library.
