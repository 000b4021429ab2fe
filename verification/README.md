# osu! Map Manager

A manager for a local osu! beatmap library: it scans the `Songs` folder, filters
maps, builds collections in `collection.db`, finds and repairs sets that lack
files, updates sets that are outdated online, and shrinks the media files of
sets and skins.

The library under `src/` holds the formats, the rules and the state of the
program. It is written in Verus: every function states what it returns or
changes, and Verus proves it. The program under `app/` reads and writes files,
talks to the backend, runs FFmpeg and draws the window.

| Modules | What they hold |
| --- | --- |
| `text`, `number`, `measure`, `sizes`, `order`, `paths`, `bytes` | texts, numbers, sets and bytes |
| `trusted` | calls into std and into other crates, whose contracts are believed |
| `collection`, `osu_db`, `local`, `events`, `probe` | the formats that are read and written |
| `query`, `display` | filters, and the texts that maps are shown as |
| `scan`, `scan_state`, `caches` | a scan, the library that it fills, and what is worked out from it |
| `selection`, `collections_page` | the selection of maps and the commands on collections |
| `repair`, `repair_state` | repairs |
| `updates`, `update_run`, `update_state` | checks for updates, and updates |
| `shrink`, `shrink_plan`, `shrink_run` | shrinking: records, plans and runs |
| `background` | which backgrounds are decoded and kept |
| `prefill`, `osu_api`, `app_update` | paths, addresses and versions |
| `manager` | the state of the program and what every event does to it |

Laws that hold of several functions together are public proof functions whose
names begin with `law_`.
